//! SID music: the file format, and a player that turns a tune into samples.
//!
//! A tune is a small C64 program under a header: an `init` routine that selects a
//! sub-song and a `play` routine that is called once per video frame and pokes
//! the sound chip's registers. The player runs `play` every frame and clocks the
//! chip for a frame's worth of cycles; after that the registers can be looked at
//! to draw the three voices in step with what is heard.

use crate::chip::{
    can_sample, chip_log, chip_new, chip_samples, chip_set_sampling, rate_fits, sampling_of,
    ChipEvent, Model,
};
use crate::cpu::Cpu;
use crate::machine::{
    decoded, in_chip, reset_machine, word, C, CALL_STEPS, Machine, Mode, NUM_REGS, Op,
};
use crate::machine_laws::{last_told, law_call_mirrors_chip, law_clock_mirrors_chip, mirrors};
use crate::text::{from_utf8_lossy, trim, trimmed, utf8_lossy};
use vstd::prelude::*;

verus! {

/// The PAL system clock, in cycles per second.
pub const PAL_CLOCK: u32 = 985_248;

/// Cycles between two calls of `play`: one PAL video frame.
pub const FRAME_CYCLES: u32 = 19_704;

// ---- the file format ----------------------------------------------------------

/// The header of a .sid file and the program in it.
#[derive(Debug)]
pub struct SidFile {
    pub name: String,
    pub author: String,
    pub songs: u16,
    pub start_song: u16,
    pub init_addr: u16,
    pub play_addr: u16,
    pub load_addr: u16,
    pub is_8580: bool,
    /// The memory image that goes to `load_addr`.
    pub body: Vec<u8>,
}

/// The big-endian word at an offset.
pub open spec fn be16_at(b: Seq<u8>, o: int) -> u16 {
    word(b[o + 1], b[o])
}

pub open spec fn at_least_one(n: u16) -> u16 {
    if n == 0 {
        1
    } else {
        n
    }
}

/// The bytes up to the first zero byte.
pub open spec fn until_zero(b: Seq<u8>) -> Seq<u8>
    decreases b.len(),
{
    if b.len() == 0 || b[0] == 0 {
        Seq::empty()
    } else {
        seq![b[0]] + until_zero(b.skip(1))
    }
}

/// The text in a field of `n` bytes, which a zero byte may end early.
pub open spec fn field_text(b: Seq<u8>, o: int, n: int) -> Seq<char> {
    trimmed(utf8_lossy(until_zero(b.subrange(o, o + n))))
}

pub open spec fn has_magic(data: Seq<u8>) -> bool {
    (data[0] == 'P' as u8 || data[0] == 'R' as u8) && data[1] == 'S' as u8 && data[2] == 'I' as u8
        && data[3] == 'D' as u8
}

/// The program after the header.
pub open spec fn sid_body(data: Seq<u8>) -> Seq<u8> {
    data.skip(be16_at(data, 6) as int)
}

/// What is wrong with a file; `None` when nothing is.
pub open spec fn sid_fault(data: Seq<u8>) -> Option<Seq<char>> {
    if data.len() < 0x7c {
        Some("file too small to be a SID"@)
    } else if !has_magic(data) {
        Some("not a PSID/RSID file"@)
    } else if be16_at(data, 6) > data.len() {
        Some("bad SID data offset"@)
    } else if be16_at(data, 8) == 0 && sid_body(data).len() < 2 {
        Some("empty SID body"@)
    } else {
        None
    }
}

/// What a .sid file says.
#[verifier::ext_equal]
pub struct Tape {
    pub name: Seq<char>,
    pub author: Seq<char>,
    pub songs: u16,
    pub start_song: u16,
    pub init_addr: u16,
    pub play_addr: u16,
    pub load_addr: u16,
    pub is_8580: bool,
    pub body: Seq<u8>,
}

impl View for SidFile {
    type V = Tape;

    open spec fn view(&self) -> Tape {
        Tape {
            name: self.name@,
            author: self.author@,
            songs: self.songs,
            start_song: self.start_song,
            init_addr: self.init_addr,
            play_addr: self.play_addr,
            load_addr: self.load_addr,
            is_8580: self.is_8580,
            body: self.body@,
        }
    }
}

/// What these bytes say. A load address of zero means that the program begins
/// with the real one, low byte first. Bits 4 and 5 of the flags, from version 2
/// on, name the chip model.
pub open spec fn sid_tape(data: Seq<u8>) -> Tape {
    let inline = be16_at(data, 8) == 0;
    let body = sid_body(data);
    Tape {
        name: field_text(data, 0x16, 32),
        author: field_text(data, 0x36, 32),
        songs: at_least_one(be16_at(data, 0x0e)),
        start_song: at_least_one(be16_at(data, 0x10)),
        init_addr: be16_at(data, 0x0a),
        play_addr: be16_at(data, 0x0c),
        load_addr: if inline {
            word(body[0], body[1])
        } else {
            be16_at(data, 8)
        },
        is_8580: be16_at(data, 4) >= 2 && be16_at(data, 0x76) & 0x30 == 0x20,
        body: if inline {
            body.skip(2)
        } else {
            body
        },
    }
}

fn be16(b: &[u8], o: usize) -> (w: u16)
    requires
        o + 1 < b@.len(),
    ensures
        w == be16_at(b@, o as int),
{
    256 * (b[o] as u16) + b[o + 1] as u16
}

proof fn lemma_until_zero(b: Seq<u8>, k: int)
    requires
        0 <= k <= b.len(),
        forall|i: int| 0 <= i < k ==> b[i] != 0,
        k < b.len() ==> b[k] == 0,
    ensures
        until_zero(b) == b.take(k),
    decreases k,
{
    if k == 0 {
        assert(b.take(0) =~= Seq::empty());
    } else {
        lemma_until_zero(b.skip(1), k - 1);
        assert(seq![b[0]] + b.skip(1).take(k - 1) =~= b.take(k));
    }
}

/// The bytes `from` up to `to`.
fn bytes_range(b: &[u8], from: usize, to: usize) -> (v: Vec<u8>)
    requires
        from <= to <= b@.len(),
    ensures
        v@ == b@.subrange(from as int, to as int),
{
    let mut v: Vec<u8> = Vec::new();
    let mut i: usize = from;
    while i < to
        invariant
            from <= i <= to <= b@.len(),
            v@ == b@.subrange(from as int, i as int),
        decreases to - i,
    {
        v.push(b[i]);
        i += 1;
        assert(b@.subrange(from as int, i as int) =~= b@.subrange(from as int, i - 1).push(b@[i - 1]));
    }
    v
}

fn cstr(b: &[u8], o: usize, n: usize) -> (s: String)
    requires
        o + n <= b@.len(),
    ensures
        s@ == field_text(b@, o as int, n as int),
{
    assert(o + n <= b.len());
    let stop: usize = o + n;
    let mut end: usize = o;
    while end < stop && b[end] != 0
        invariant
            o <= end <= stop <= b@.len(),
            forall|i: int| o <= i < end ==> b@[i] != 0,
        decreases stop - end,
    {
        end += 1;
    }
    let text = bytes_range(b, o, end);
    proof {
        let field = b@.subrange(o as int, o + n);
        lemma_until_zero(field, end - o);
        assert(field.take(end - o) =~= text@);
    }
    trim(from_utf8_lossy(text.as_slice()).as_str())
}

/// Reads a PSID or RSID file.
pub fn parse(data: &[u8]) -> (r: Result<SidFile, String>)
    ensures
        match r {
            Ok(file) => sid_fault(data@) is None && file@ == sid_tape(data@),
            Err(e) => sid_fault(data@) == Some(e@),
        },
{
    if data.len() < 0x7c {
        return Err("file too small to be a SID".to_string());
    }
    // "PSID" or "RSID"
    let magic = (data[0] == 0x50 || data[0] == 0x52) && data[1] == 0x53 && data[2] == 0x49
        && data[3] == 0x44;
    if !magic {
        return Err("not a PSID/RSID file".to_string());
    }
    let version: u16 = be16(data, 0x04);
    let data_offset: usize = be16(data, 0x06) as usize;
    let mut load_addr: u16 = be16(data, 0x08);
    let songs: u16 = be16(data, 0x0e);
    let start_song: u16 = be16(data, 0x10);
    let name = cstr(data, 0x16, 32);
    let author = cstr(data, 0x36, 32);
    let is_8580 = version >= 2 && be16(data, 0x76) & 0x30 == 0x20;
    if data_offset > data.len() {
        return Err("bad SID data offset".to_string());
    }
    let mut from: usize = data_offset;
    if load_addr == 0 {
        if data.len() - from < 2 {
            return Err("empty SID body".to_string());
        }
        load_addr = data[from] as u16 + 256 * (data[from + 1] as u16);
        from = from + 2;
    }
    let body = bytes_range(data, from, data.len());
    proof {
        if from == data_offset + 2 {
            assert(sid_body(data@).skip(2) =~= data@.skip(data_offset + 2));
        }
        assert(body@ =~= data@.skip(from as int));
    }
    Ok(
        SidFile {
            name,
            author,
            songs: if songs == 0 {
                1
            } else {
                songs
            },
            start_song: if start_song == 0 {
                1
            } else {
                start_song
            },
            init_addr: be16(data, 0x0a),
            play_addr: be16(data, 0x0c),
            load_addr,
            is_8580,
            body,
        },
    )
}

// ---- a snapshot of the chip ----------------------------------------------------

/// What the chip registers were last told, and the frame it was.
#[derive(Clone, Copy)]
pub struct Vis {
    pub regs: [u8; NUM_REGS],
    pub frame: u64,
}

/// The frequency of a voice, from the registers of the chip.
pub open spec fn pitch_in(regs: Seq<u8>, v: int) -> u16 {
    word(regs[7 * v], regs[7 * v + 1])
}

/// Whether a voice sounds a note.
pub open spec fn gate_in(regs: Seq<u8>, v: int) -> bool {
    regs[7 * v + 4] % 2 == 1
}

/// The waves of a voice, a bit for each.
pub open spec fn waves_in(regs: Seq<u8>, v: int) -> u8 {
    regs[7 * v + 4] / 16
}

/// The level at which a voice sustains a note.
pub open spec fn sustain_in(regs: Seq<u8>, v: int) -> u8 {
    regs[7 * v + 6] / 16
}

/// The master volume.
pub open spec fn volume_in(regs: Seq<u8>) -> u8 {
    regs[0x18] % 16
}

impl Vis {
    /// Voice `v`'s frequency register.
    pub fn voice_pitch(&self, v: usize) -> (f: u16)
        requires
            v <= 4,
        ensures
            f == word(self.regs@[7 * v], self.regs@[7 * v + 1]),
            f == pitch_in(self.regs@, v as int),
    {
        self.regs[v * 7] as u16 + 256 * (self.regs[v * 7 + 1] as u16)
    }

    /// Voice `v`'s gate bit: a note is on.
    pub fn voice_gate(&self, v: usize) -> (on: bool)
        requires
            v <= 3,
        ensures
            on == (self.regs@[7 * v + 4] % 2 == 1),
            on == gate_in(self.regs@, v as int),
    {
        self.regs[v * 7 + 4] % 2 == 1
    }

    /// Voice `v`'s waveform bits: triangle, saw, pulse, noise.
    pub fn voice_wave(&self, v: usize) -> (w: u8)
        requires
            v <= 3,
        ensures
            w == self.regs@[7 * v + 4] / 16,
            w == waves_in(self.regs@, v as int),
    {
        self.regs[v * 7 + 4] / 16
    }

    /// Voice `v`'s sustain level, 0 to 15.
    pub fn voice_sustain(&self, v: usize) -> (level: u8)
        requires
            v <= 3,
        ensures
            level == self.regs@[7 * v + 6] / 16,
            level == sustain_in(self.regs@, v as int),
    {
        self.regs[v * 7 + 6] / 16
    }

    /// The master volume, 0 to 15.
    pub fn volume(&self) -> (level: u8)
        ensures
            level == self.regs@[0x18] % 16,
            level == volume_in(self.regs@),
    {
        self.regs[0x18] % 16
    }
}

// ---- the player ------------------------------------------------------------------

/// A player at some moment: the machine, the address of `play`, the cycles left
/// of the current frame and the number of frames begun.
#[verifier::ext_equal]
pub struct Playing {
    pub machine: Machine,
    pub play_addr: u16,
    pub left: u32,
    pub frame: u64,
}

/// The sub-song that is played when `song` is asked for: zero means the file's
/// own choice, and what the file does not have becomes the nearest that it has.
pub open spec fn chosen_song(song: u16, start_song: u16, songs: u16) -> u16 {
    let wanted = if song == 0 {
        start_song
    } else {
        song
    };
    if wanted < 1 {
        1
    } else if wanted > songs {
        songs
    } else {
        wanted
    }
}

/// The machine that `file`'s program begins in: loaded, with the processor port
/// as the C64 sets it.
pub open spec fn started(file: Tape, rate: u32) -> Machine {
    let model = if file.is_8580 {
        Model::Mos8580
    } else {
        Model::Mos6581
    };
    let log = seq![ChipEvent::Made(model), ChipEvent::Sampling(PAL_CLOCK, rate)];
    reset_machine(log).loaded(file.load_addr, file.body).put(1, 0x37)
}

/// The player of a sub-song of a file: `init` was called with the zero-based
/// number in the accumulator. A file without a play address has put one into the
/// interrupt vector by then.
pub open spec fn playing_file(file: Tape, song: u16, rate: u32) -> Playing {
    let number = chosen_song(song, file.start_song, file.songs) - 1;
    let machine = started(file, rate).called(file.init_addr, (number % 256) as u8);
    Playing {
        machine,
        play_addr: if file.play_addr != 0 {
            file.play_addr
        } else {
            machine.get16(0x0314)
        },
        left: 0,
        frame: 0,
    }
}

impl Playing {
    /// The player can be asked for samples.
    pub open spec fn can_render(self) -> bool {
        &&& self.machine.wf()
        &&& can_sample(self.machine.log)
        &&& self.left < 0x8000
    }

    /// A frame begins when the last one is used up: `play` is called, where
    /// there is one.
    pub open spec fn framed(self) -> Playing {
        if self.left == 0 {
            Playing {
                machine: if self.play_addr != 0 {
                    self.machine.called(self.play_addr, self.machine.a)
                } else {
                    self.machine
                },
                left: FRAME_CYCLES,
                frame: self.frame.wrapping_add(1),
                ..self
            }
        } else {
            self
        }
    }

    /// The player after one run of the chip with room for `room` samples.
    pub open spec fn ran(self, room: nat) -> Playing {
        let begun = self.framed();
        Playing {
            machine: begun.machine.clocked(begun.left, room),
            left: self.run_samples(room).1,
            ..begun
        }
    }

    /// The samples of that run, and the cycles left of the frame.
    pub open spec fn run_samples(self, room: nat) -> (Seq<i16>, u32) {
        let begun = self.framed();
        chip_samples(begun.machine.log, begun.left, room)
    }

    /// The samples that fill a buffer of `room` places. A frame that gives none
    /// ends it early.
    pub open spec fn rendered(self, room: nat) -> Seq<i16>
        decreases room,
    {
        let made = self.run_samples(room).0;
        if room == 0 {
            Seq::empty()
        } else if made.len() == 0 || made.len() >= room {
            made
        } else {
            made + self.ran(room).rendered((room - made.len()) as nat)
        }
    }

    /// The player after filling such a buffer.
    pub open spec fn after_render(self, room: nat) -> Playing
        decreases room,
    {
        let made = self.run_samples(room).0;
        if room == 0 {
            self
        } else if made.len() == 0 || made.len() >= room {
            self.ran(room)
        } else {
            self.ran(room).after_render((room - made.len()) as nat)
        }
    }
}

proof fn lemma_put_keeps_sampling(m: Machine, addr: u16, v: u8)
    requires
        m.wf(),
    ensures
        m.put(addr, v).wf(),
        sampling_of(m.put(addr, v).log) == sampling_of(m.log),
{
    if in_chip(addr) {
        assert(m.put(addr, v).log.drop_last() =~= m.log);
    }
}

proof fn lemma_step_keeps_sampling(m: Machine)
    requires
        m.wf(),
    ensures
        m.step().wf(),
        sampling_of(m.step().log) == sampling_of(m.log),
{
    match decoded(m.get(m.pc)) {
        Some((op, mode)) => {
            let fetched = m.skip(1);
            let addr = fetched.address(mode);
            let n = fetched.skip(Machine::operand_bytes(mode));
            lemma_executed_keeps_sampling(n, op, mode, addr);
        },
        None => {},
    }
}

proof fn lemma_executed_keeps_sampling(n: Machine, op: Op, mode: Mode, addr: u16)
    requires
        n.wf(),
    ensures
        n.executed(op, mode, addr).wf(),
        sampling_of(n.executed(op, mode, addr).log) == sampling_of(n.log),
{
    let v = n.get(addr);
    match op {
        Op::Sta => lemma_put_keeps_sampling(n, addr, n.a),
        Op::Stx => lemma_put_keeps_sampling(n, addr, n.x),
        Op::Sty => lemma_put_keeps_sampling(n, addr, n.y),
        Op::Dec => lemma_put_keeps_sampling(n, addr, v.wrapping_sub(1)),
        Op::Inc => lemma_put_keeps_sampling(n, addr, v.wrapping_add(1)),
        Op::Asl | Op::Lsr | Op::Rol | Op::Ror => lemma_put_keeps_sampling(
            n.set(C, Machine::shifted_out(op, v)),
            addr,
            n.shifted(op, v),
        ),
        _ => {},
    }
}

/// A call keeps the sizes of memory and the rate that the chip samples at.
pub proof fn lemma_call_keeps_sampling(m: Machine, addr: u16, a: u8)
    requires
        m.wf(),
    ensures
        m.called(addr, a).wf(),
        sampling_of(m.called(addr, a).log) == sampling_of(m.log),
{
    lemma_run_keeps_sampling(
        Machine { a, pc: addr, halt: false, ..m },
        m.sp,
        CALL_STEPS as nat,
    );
}

proof fn lemma_run_keeps_sampling(m: Machine, entry_sp: u8, spare: nat)
    requires
        m.wf(),
    ensures
        m.run(entry_sp, spare).wf(),
        sampling_of(m.run(entry_sp, spare).log) == sampling_of(m.log),
    decreases spare,
{
    if !m.returning(entry_sp) {
        lemma_step_keeps_sampling(m);
        if !(m.step().halt || spare == 0) {
            lemma_run_keeps_sampling(m.step(), entry_sp, (spare - 1) as nat);
        }
    }
}

/// Whether the chip can be sampled at a rate.
pub fn rate_works(rate: u32) -> (r: bool)
    ensures
        r == rate_fits(PAL_CLOCK, rate),
{
    rate <= PAL_CLOCK && (PAL_CLOCK as u64) < 32767 * rate as u64
}

/// Plays one sub-song of a file.
pub struct Player {
    pub cpu: Cpu,
    pub play_addr: u16,
    pub frame_cycles_left: u32,
    pub frame: u64,
    pub name: String,
    pub author: String,
    pub songs: u16,
}

impl View for Player {
    type V = Playing;

    open spec fn view(&self) -> Playing {
        Playing {
            machine: self.cpu@,
            play_addr: self.play_addr,
            left: self.frame_cycles_left,
            frame: self.frame,
        }
    }
}

impl Player {
    /// A player of a file that has been read.
    pub fn of_file(f: SidFile, song: u16, sample_rate: u32) -> (p: Player)
        requires
            f.songs >= 1,
        ensures
            p@ == playing_file(f@, song, sample_rate),
            p.name@ == f@.name,
            p.author@ == f@.author,
            p.songs == f.songs,
            rate_fits(PAL_CLOCK, sample_rate) ==> p@.can_render(),
    {
        let model = if f.is_8580 {
            Model::Mos8580
        } else {
            Model::Mos6581
        };
        let mut sid = chip_new(model);
        chip_set_sampling(&mut sid, PAL_CLOCK, sample_rate);
        proof {
            assert(chip_log(sid) =~= seq![
                ChipEvent::Made(model),
                ChipEvent::Sampling(PAL_CLOCK, sample_rate),
            ]);
        }
        let mut cpu = Cpu::new(sid);
        cpu.load(f.load_addr, &f.body);
        cpu.wr(0x01, 0x37);
        let wanted: u16 = if song == 0 {
            f.start_song
        } else {
            song
        };
        let song: u16 = if wanted < 1 {
            1
        } else if wanted > f.songs {
            f.songs
        } else {
            wanted
        };
        proof {
            lemma_call_keeps_sampling(cpu@, f.init_addr, ((song - 1) % 256) as u8);
        }
        cpu.call(f.init_addr, ((song - 1) % 256) as u8);
        let play_addr: u16 = if f.play_addr != 0 {
            f.play_addr
        } else {
            cpu.rd16(0x0314)
        };
        Player {
            cpu,
            play_addr,
            frame_cycles_left: 0,
            frame: 0,
            name: f.name,
            author: f.author,
            songs: f.songs,
        }
    }

    /// A player for `song` (counted from one; zero for the file's own choice) of
    /// the given .sid bytes, with mono samples at `sample_rate` per second.
    pub fn new(bytes: &[u8], song: u16, sample_rate: u32) -> (r: Result<Player, String>)
        ensures
            match r {
                Ok(p) => {
                    let tape = sid_tape(bytes@);
                    &&& sid_fault(bytes@) is None
                    &&& p@ == playing_file(tape, song, sample_rate)
                    &&& p.name@ == tape.name
                    &&& p.author@ == tape.author
                    &&& p.songs == tape.songs
                    &&& rate_fits(PAL_CLOCK, sample_rate) ==> p@.can_render()
                },
                Err(e) => sid_fault(bytes@) == Some(e@),
            },
    {
        match parse(bytes) {
            Ok(f) => {
                let p = Player::of_file(f, song, sample_rate);
                Ok(p)
            },
            Err(e) => Err(e),
        }
    }

    /// Fills `out` with the next samples, calling `play` at each frame boundary.
    /// Returns the chip registers as they then are.
    pub fn render(&mut self, out: &mut [i16]) -> (vis: Vis)
        requires
            old(self)@.can_render(),
        ensures
            final(self)@ == old(self)@.after_render(old(out)@.len()),
            final(self)@.can_render(),
            final(self).name == old(self).name,
            final(self).author == old(self).author,
            final(self).songs == old(self).songs,
            ({
                let made = old(self)@.rendered(old(out)@.len());
                &&& made.len() <= old(out)@.len()
                &&& final(out)@ == made + old(out)@.skip(made.len() as int)
            }),
            vis.regs@ == final(self)@.machine.regs,
            vis.frame == final(self)@.frame,
    {
        let len: usize = out.len();
        let ghost goal = self@.rendered(len as nat);
        let ghost end = self@.after_render(len as nat);
        let ghost before = out@;
        let mut idx: usize = 0;
        assert(out@.take(0) + self@.rendered(len as nat) =~= goal);
        while idx < len
            invariant_except_break
                out@.take(idx as int) + self@.rendered((len - idx) as nat) == goal,
                self@.after_render((len - idx) as nat) == end,
            invariant
                idx <= len,
                out@.len() == len,
                before.len() == len,
                self@.can_render(),
                out@.skip(idx as int) == before.skip(idx as int),
                self.name == old(self).name,
                self.author == old(self).author,
                self.songs == old(self).songs,
            ensures
                idx <= len,
                out@.take(idx as int) == goal,
                self@ == end,
            decreases len - idx,
        {
            let ghost now = self@;
            let ghost room = (len - idx) as nat;
            if self.frame_cycles_left == 0 {
                if self.play_addr != 0 {
                    proof {
                        lemma_call_keeps_sampling(self.cpu@, self.play_addr, self.cpu@.a);
                    }
                    let a: u8 = self.cpu.accumulator();
                    self.cpu.call(self.play_addr, a);
                }
                self.frame = self.frame.wrapping_add(1);
                self.frame_cycles_left = FRAME_CYCLES;
            }
            assert(self@ =~= now.framed());
            let ghost begun = self@;
            let ghost shown = out@;
            let (n, left): (usize, u32) = self.cpu.sample(self.frame_cycles_left, out, idx);
            self.frame_cycles_left = left;
            proof {
                assert(self@ =~= now.ran(room));
                assert(self@.machine.log.drop_last() =~= begun.machine.log);
                let made = now.run_samples(room).0;
                assert(out@.take(idx + n) =~= shown.take(idx as int) + made);
                assert forall|i: int| idx + n <= i < len implies out@[i] == before[i] by {
                    assert(shown.skip(idx as int)[i - idx] == before.skip(idx as int)[i - idx]);
                }
                assert(out@.skip(idx + n) =~= before.skip(idx + n));
                if n > 0 && n < room {
                    assert(shown.take(idx as int) + (made + self@.rendered((room - n) as nat))
                        =~= out@.take(idx + n) + self@.rendered((room - n) as nat));
                }
            }
            idx = idx + n;
            if n == 0 && left == 0 {
                break ;
            }
            assert(idx == len ==> out@.take(idx as int) + self@.rendered(0) =~= goal);
        }
        proof {
            assert(goal.len() == idx);
            assert(out@ =~= goal + before.skip(idx as int)) by {
                assert forall|i: int| idx <= i < len implies out@[i] == before[i] by {
                    assert(out@.skip(idx as int)[i - idx] == before.skip(idx as int)[i - idx]);
                }
                assert forall|i: int| 0 <= i < idx implies out@[i] == goal[i] by {
                    assert(out@.take(idx as int)[i] == goal[i]);
                }
            }
        }
        self.snapshot()
    }

    /// The chip registers as they are.
    pub fn snapshot(&self) -> (vis: Vis)
        ensures
            vis.regs@ == self@.machine.regs,
            vis.frame == self@.frame,
    {
        Vis { regs: self.cpu.registers(), frame: self.frame }
    }
}

// ---- laws --------------------------------------------------------------------------

/// A player begins with a register shadow that holds what the chip was told.
pub proof fn law_player_begins_mirrored(file: Tape, song: u16, rate: u32)
    ensures
        mirrors(playing_file(file, song, rate).machine),
{
    let model = if file.is_8580 {
        Model::Mos8580
    } else {
        Model::Mos6581
    };
    let log = seq![ChipEvent::Made(model), ChipEvent::Sampling(PAL_CLOCK, rate)];
    let m = started(file, rate);
    assert(m.log == log);
    assert forall|reg: int| 0 <= reg < NUM_REGS implies #[trigger] m.regs[reg] == last_told(
        m.log,
        reg,
    ) by {
        reveal_with_fuel(last_told, 3);
    }
    let number = chosen_song(song, file.start_song, file.songs) - 1;
    law_call_mirrors_chip(m, file.init_addr, (number % 256) as u8);
}

/// However much is rendered, what a snapshot shows is what each register of the
/// chip was last told.
pub proof fn law_snapshot_mirrors_chip(p: Playing, room: nat)
    requires
        mirrors(p.machine),
    ensures
        mirrors(p.after_render(room).machine),
    decreases room,
{
    if room > 0 {
        if p.left == 0 && p.play_addr != 0 {
            law_call_mirrors_chip(p.machine, p.play_addr, p.machine.a);
        }
        let begun = p.framed();
        law_clock_mirrors_chip(begun.machine, begun.left, room);
        let made = p.run_samples(room).0;
        if made.len() != 0 && made.len() < room {
            law_snapshot_mirrors_chip(p.ran(room), (room - made.len()) as nat);
        }
    }
}

/// What stands where in the header: numbers of two bytes with the high byte first, the name
/// and the author in 32 bytes each up to a zero byte, and the chip's model in two bits of the
/// flags from the second version on. Songs are counted from one.
pub proof fn law_header_fields(data: Seq<u8>, ends_at: int)
    requires
        sid_fault(data) is None,
        0 <= ends_at <= 32,
        forall|i: int| 0 <= i < ends_at ==> #[trigger] data[0x16 + i] != 0,
        ends_at < 32 ==> data[0x16 + ends_at] == 0,
    ensures
        ({
            let t = sid_tape(data);
            let two = |o: int| 256 * data[o] + data[o + 1];
            &&& data.len() >= 124
            &&& t.init_addr == two(10)
            &&& t.play_addr == two(12)
            &&& two(14) > 0 ==> t.songs == two(14)
            &&& two(14) == 0 ==> t.songs == 1
            &&& two(16) > 0 ==> t.start_song == two(16)
            &&& two(16) == 0 ==> t.start_song == 1
            &&& t.is_8580 == (two(4) > 1 && data[0x77] & 0x30 == 0x20)
            &&& t.name == trimmed(utf8_lossy(data.subrange(22, 22 + ends_at)))
        }),
{
    let hi = data[0x76];
    let lo = data[0x77];
    let w = be16_at(data, 0x76);
    assert(w == 256 * hi + lo);
    assert((w & 0x30 == 0x20) == (lo & 0x30 == 0x20)) by (bit_vector)
        requires
            w == 256 * (hi as u16) + (lo as u16),
    ;
    let field = data.subrange(0x16, 0x36);
    assert forall|i: int| 0 <= i < ends_at implies field[i] != 0 by {
        assert(data[0x16 + i] != 0);
    }
    lemma_until_zero(field, ends_at);
    assert(field.take(ends_at) =~= data.subrange(22, 22 + ends_at));
}

/// The author stands behind the name.
pub proof fn law_header_author(data: Seq<u8>, ends_at: int)
    requires
        sid_fault(data) is None,
        0 <= ends_at <= 32,
        forall|i: int| 0 <= i < ends_at ==> #[trigger] data[0x36 + i] != 0,
        ends_at < 32 ==> data[0x36 + ends_at] == 0,
    ensures
        sid_tape(data).author == trimmed(utf8_lossy(data.subrange(54, 54 + ends_at))),
{
    let field = data.subrange(0x36, 0x56);
    assert forall|i: int| 0 <= i < ends_at implies field[i] != 0 by {
        assert(data[0x36 + i] != 0);
    }
    lemma_until_zero(field, ends_at);
    assert(field.take(ends_at) =~= data.subrange(54, 54 + ends_at));
}

/// The program is the rest of the file behind the header. Where the header names no load
/// address, the program begins with it, the low byte first.
pub proof fn law_programs_follow_the_header(data: Seq<u8>)
    requires
        sid_fault(data) is None,
    ensures
        ({
            let t = sid_tape(data);
            let from = 256 * data[6] + data[7];
            let load = 256 * data[8] + data[9];
            &&& load > 0 ==> t.load_addr == load && t.body == data.subrange(from, data.len() as int)
            &&& load == 0 ==> t.load_addr == data[from] + 256 * data[from + 1] && t.body == data.subrange(
                from + 2,
                data.len() as int,
            )
        }),
{
    let from = 256 * data[6] + data[7];
    let body = sid_body(data);
    assert(body =~= data.subrange(from, data.len() as int));
    if 256 * data[8] + data[9] == 0 {
        assert(body.skip(2) =~= data.subrange(from + 2, data.len() as int));
    }
}

/// A file is a tune when it is long enough for a header, begins with "PSID" or "RSID", and
/// has its program within it.
pub proof fn law_what_is_a_tune(data: Seq<u8>)
    ensures
        (sid_fault(data) is None) == (data.len() >= 124 && (data[0] == 0x50 || data[0] == 0x52)
            && data[1] == 0x53 && data[2] == 0x49 && data[3] == 0x44 && ({
            let from = 256 * data[6] + data[7];
            let load = 256 * data[8] + data[9];
            from <= data.len() && (load > 0 || from + 2 <= data.len())
        })),
{
    assert('P' as u8 == 0x50 && 'R' as u8 == 0x52 && 'S' as u8 == 0x53 && 'I' as u8 == 0x49
        && 'D' as u8 == 0x44);
}

/// The song that is played is one that the file has: the one asked for, where it has it, the
/// file's own choice where none is asked for, and the last where the number is too great.
pub proof fn law_the_song_is_the_one_asked_for(song: u16, start_song: u16, songs: u16)
    requires
        songs >= 1,
    ensures
        1 <= chosen_song(song, start_song, songs) <= songs,
        1 <= song <= songs ==> chosen_song(song, start_song, songs) == song,
        song > songs ==> chosen_song(song, start_song, songs) == songs,
        song == 0 && 1 <= start_song <= songs ==> chosen_song(song, start_song, songs)
            == start_song,
{
}

/// A tune begins in a machine that has its program in memory and nothing else but the
/// processor port, with a chip of its model that is sampled at the rate, at the clock of a
/// PAL machine.
pub proof fn law_tunes_begin(file: Tape, rate: u32, i: int)
    requires
        0 <= i < 0x10000,
    ensures
        ({
            let m = started(file, rate);
            &&& m.log == seq![
                ChipEvent::Made(
                    if file.is_8580 {
                        Model::Mos8580
                    } else {
                        Model::Mos6581
                    },
                ),
                ChipEvent::Sampling(985248, rate),
            ]
            &&& i == 1 ==> m.ram[i] == 0x37
            &&& i != 1 && file.load_addr <= i && i - file.load_addr < file.body.len() ==> m.ram[i]
                == file.body[i - file.load_addr]
            &&& i != 1 && (i < file.load_addr || i - file.load_addr >= file.body.len()) ==> m.ram[i] == 0
            &&& m.sp == 0xff
        }),
{
}

/// The first routine is called with the number of the song, counted from zero, in the
/// accumulator. The other is at the address of the header, or where the first has put its
/// address into the interrupt vector.
pub proof fn law_the_song_is_handed_over(file: Tape, song: u16, rate: u32)
    requires
        1 <= song <= file.songs,
        song <= 256,
    ensures
        ({
            let p = playing_file(file, song, rate);
            let m = started(file, rate).called(file.init_addr, (song - 1) as u8);
            &&& p.machine == m
            &&& file.play_addr > 0 ==> p.play_addr == file.play_addr
            &&& file.play_addr == 0 ==> p.play_addr == m.ram[0x314] + 256 * m.ram[0x315]
            &&& p.left == 0 && p.frame == 0
        }),
{
}

/// Between two calls of the routine a fiftieth of a second passes: 19704 cycles of the chip.
/// The accumulator is handed over as it is.
pub proof fn law_frames_call_the_routine(p: Playing)
    ensures
        p.left > 0 ==> p.framed() == p,
        p.left == 0 ==> p.framed().left == 19704 && p.framed().play_addr == p.play_addr,
        p.left == 0 && p.frame < u64::MAX ==> p.framed().frame == p.frame + 1,
        p.left == 0 && p.play_addr > 0 ==> p.framed().machine == p.machine.called(
            p.play_addr,
            p.machine.a,
        ),
        p.left == 0 && p.play_addr == 0 ==> p.framed().machine == p.machine,
{
}

/// Samples come from the chip run by run, in order: those of the first run are in front, and
/// as long as a run gives some and there is room, the next run's follow.
pub proof fn law_samples_follow_each_other(p: Playing, room: nat)
    requires
        room > 0,
    ensures
        ({
            let begun = p.framed();
            let run = chip_samples(begun.machine.log, begun.left, room);
            let n = run.0.len();
            let next = Playing {
                machine: Machine {
                    log: begun.machine.log.push(ChipEvent::Clock(begun.left, room)),
                    ..begun.machine
                },
                left: run.1,
                ..begun
            };
            &&& 0 < n < room ==> p.rendered(room) == run.0 + next.rendered((room - n) as nat)
                && p.after_render(room) == next.after_render((room - n) as nat)
            &&& n == 0 || n >= room ==> p.rendered(room) == run.0 && p.after_render(room) == next
        }),
{
}

/// The registers of the voices lie seven apart. The frequency comes first, with its low byte
/// in front; the fifth says in its lowest bit whether a note is on, and has the waves in its
/// upper four; the seventh has the sustain level in its upper four. The volume is in the lower
/// four bits of the 25th.
pub proof fn law_registers_of_the_voices(regs: Seq<u8>)
    requires
        regs.len() == 32,
    ensures
        pitch_in(regs, 0) == regs[0] + 256 * regs[1],
        pitch_in(regs, 1) == regs[7] + 256 * regs[8],
        pitch_in(regs, 2) == regs[14] + 256 * regs[15],
        gate_in(regs, 0) <==> regs[4] & 0x01 != 0,
        gate_in(regs, 1) <==> regs[11] & 0x01 != 0,
        gate_in(regs, 2) <==> regs[18] & 0x01 != 0,
        waves_in(regs, 0) == regs[4] >> 4,
        waves_in(regs, 1) == regs[11] >> 4,
        waves_in(regs, 2) == regs[18] >> 4,
        sustain_in(regs, 0) == regs[6] >> 4,
        sustain_in(regs, 1) == regs[13] >> 4,
        sustain_in(regs, 2) == regs[20] >> 4,
        volume_in(regs) == regs[24] & 0x0f,
{
    lemma_nibbles(regs[4]);
    lemma_nibbles(regs[11]);
    lemma_nibbles(regs[18]);
    lemma_nibbles(regs[6]);
    lemma_nibbles(regs[13]);
    lemma_nibbles(regs[20]);
    lemma_nibbles(regs[24]);
}

proof fn lemma_nibbles(b: u8)
    ensures
        (b % 2 == 1) <==> b & 0x01 != 0,
        b / 16 == b >> 4,
        b % 16 == b & 0x0f,
{
    assert(((b % 2 == 1) <==> b & 0x01 != 0) && b / 16 == b >> 4 && b % 16 == b & 0x0f) by (
    bit_vector);
}

} // verus!
