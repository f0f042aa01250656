use breadbin::cpu::Cpu;
use breadbin::sid::{self, Player, Vis};
use resid::{ChipModel, Sid};

fn machine(code: &[u8]) -> Cpu {
    let mut c = Cpu::new(Sid::new(ChipModel::Mos6581));
    c.load(0x1000, &code.to_vec());
    c
}

/// Runs code at $1000 with a value in the accumulator.
fn run(code: &[u8], a: u8) -> Cpu {
    let mut c = machine(code);
    c.call(0x1000, a);
    c
}

#[test]
fn numbers_are_added_with_carry() {
    // CLC; ADC #$50; STA $2000; LDA #0; ROL A; STA $2001; RTS
    let c = run(&[0x18, 0x69, 0x50, 0x8d, 0, 0x20, 0xa9, 0, 0x2a, 0x8d, 1, 0x20, 0x60], 0xd0);
    assert_eq!(c.rd(0x2000), 0x20);
    assert_eq!(c.rd(0x2001), 1);
}

#[test]
fn numbers_are_added_in_decimal() {
    // SED; CLC; ADC #$27; CLD; RTS
    let c = run(&[0xf8, 0x18, 0x69, 0x27, 0xd8, 0x60], 0x15);
    assert_eq!(c.accumulator(), 0x42);
    // SED; SEC; SBC #$09; CLD; RTS
    let c = run(&[0xf8, 0x38, 0xe9, 0x09, 0xd8, 0x60], 0x42);
    assert_eq!(c.accumulator(), 0x33);
}

#[test]
fn numbers_are_subtracted_with_borrow() {
    // SEC; SBC #$30; RTS
    assert_eq!(run(&[0x38, 0xe9, 0x30, 0x60], 0x50).accumulator(), 0x20);
    // CLC; SBC #$30; RTS
    assert_eq!(run(&[0x18, 0xe9, 0x30, 0x60], 0x50).accumulator(), 0x1f);
}

#[test]
fn loops_count_down() {
    // LDX #5; loop: CLC; ADC #2; DEX; BNE loop; RTS
    let c = run(&[0xa2, 5, 0x18, 0x69, 2, 0xca, 0xd0, 0xfa, 0x60], 0);
    assert_eq!(c.accumulator(), 10);
}

#[test]
fn subroutines_return_to_their_caller() {
    // JSR $1008; CLC; ADC #1; RTS; NOP; LDA #$40; RTS
    let c = run(&[0x20, 0x08, 0x10, 0x18, 0x69, 1, 0x60, 0xea, 0xa9, 0x40, 0x60], 0);
    assert_eq!(c.accumulator(), 0x41);
}

#[test]
fn the_stack_gives_back_what_it_was_given() {
    // PHA; LDA #0; PLA; RTS
    assert_eq!(run(&[0x48, 0xa9, 0, 0x68, 0x60], 0x77).accumulator(), 0x77);
}

#[test]
fn memory_is_reached_in_all_modes() {
    let mut c = machine(&[
        0xa2, 4, // LDX #4
        0xa1, 0x10, // LDA ($10,X)
        0x8d, 0x00, 0x20, // STA $2000
        0xa0, 2, // LDY #2
        0xb1, 0x14, // LDA ($14),Y
        0x8d, 0x01, 0x20, // STA $2001
        0xbd, 0xfc, 0x2f, // LDA $2ffc,X
        0x8d, 0x02, 0x20, // STA $2002
        0x60,
    ]);
    c.wr(0x14, 0x00);
    c.wr(0x15, 0x30);
    c.wr(0x3000, 0x11);
    c.wr(0x3002, 0x22);
    c.call(0x1000, 0);
    assert_eq!(c.rd(0x2000), 0x11);
    assert_eq!(c.rd(0x2001), 0x22);
    assert_eq!(c.rd(0x2002), 0x11);
    assert_eq!(c.rd16(0x14), 0x3000);
}

#[test]
fn runaway_code_is_given_up() {
    // JMP $1000
    let c = run(&[0x4c, 0x00, 0x10], 9);
    assert_eq!(c.accumulator(), 9);
    // an opcode that is not emulated
    let c = run(&[0xa9, 3, 0x02, 0xa9, 4, 0x60], 9);
    assert_eq!(c.accumulator(), 3);
}

#[test]
fn stores_to_the_chip_are_mirrored() {
    // STA $d418; STA $d438 (the same register); LDA #5; STA $d400; RTS
    let c = run(&[0x8d, 0x18, 0xd4, 0xa9, 5, 0x8d, 0x20, 0xd4, 0x60], 15);
    let regs = c.registers();
    assert_eq!(regs[0x18], 15);
    assert_eq!(regs[0], 5);
}

fn tune(version: u16, load: u16, flags: u16) -> Vec<u8> {
    let mut d = vec![0u8; 0x7c];
    d[0..4].copy_from_slice(b"PSID");
    d[4..6].copy_from_slice(&version.to_be_bytes());
    d[6..8].copy_from_slice(&0x7cu16.to_be_bytes());
    d[8..10].copy_from_slice(&load.to_be_bytes());
    d[0xa..0xc].copy_from_slice(&0x1000u16.to_be_bytes());
    d[0xc..0xe].copy_from_slice(&0x1020u16.to_be_bytes());
    d[0xe..0x10].copy_from_slice(&2u16.to_be_bytes());
    d[0x16..0x1a].copy_from_slice(b"Test");
    d[0x36..0x39].copy_from_slice(b"Me\xe9");
    d[0x76..0x78].copy_from_slice(&flags.to_be_bytes());
    if load == 0 {
        d.extend([0x00, 0x10]);
    }
    let mut code = vec![0u8; 0x40];
    // init: LDA #15; STA $d418; LDA #$21; STA $d404; LDA #$f0; STA $d406; LDA #$10; STA $d401; RTS
    code[0..21].copy_from_slice(&[
        0xa9, 15, 0x8d, 0x18, 0xd4, 0xa9, 0x21, 0x8d, 0x04, 0xd4, 0xa9, 0xf0, 0x8d, 0x06, 0xd4, 0xa9, 0x10,
        0x8d, 0x01, 0xd4, 0x60,
    ]);
    // play: INC $d400; RTS
    code[0x20..0x24].copy_from_slice(&[0xee, 0x00, 0xd4, 0x60]);
    d.extend(code);
    d
}

#[test]
fn tunes_are_parsed() {
    let f = sid::parse(&tune(2, 0, 0x20)).unwrap();
    assert_eq!(f.name, "Test");
    assert_eq!(f.author, "Me\u{fffd}");
    assert_eq!(f.songs, 2);
    assert_eq!(f.start_song, 1);
    assert_eq!(f.load_addr, 0x1000);
    assert_eq!(f.init_addr, 0x1000);
    assert_eq!(f.play_addr, 0x1020);
    assert!(f.is_8580);
    assert_eq!(f.body.len(), 0x40);
    let g = sid::parse(&tune(1, 0x1000, 0x20)).unwrap();
    assert!(!g.is_8580);
    assert_eq!(g.body.len(), 0x40);
}

#[test]
fn broken_tunes_are_refused() {
    assert_eq!(sid::parse(b"PSID").err(), Some("file too small to be a SID".to_string()));
    let mut d = tune(2, 0, 0);
    d[0] = b'X';
    assert_eq!(sid::parse(&d).err(), Some("not a PSID/RSID file".to_string()));
    let mut d = tune(2, 0, 0);
    d[6] = 0xff;
    assert_eq!(sid::parse(&d).err(), Some("bad SID data offset".to_string()));
    let d = tune(2, 0, 0)[..0x7d].to_vec();
    assert_eq!(sid::parse(&d).err(), Some("empty SID body".to_string()));
    assert!(Player::new(b"PSID", 0, 44100).is_err());
}

#[test]
fn tunes_are_played() {
    let mut p = Player::new(&tune(2, 0, 0), 0, 44100).unwrap();
    assert_eq!(p.name, "Test");
    let v = p.snapshot();
    assert_eq!(v.volume(), 15);
    assert!(v.voice_gate(0));
    assert!(!v.voice_gate(1));
    assert_eq!(v.voice_wave(0), 2);
    assert_eq!(v.voice_sustain(0), 15);
    assert_eq!(v.voice_pitch(0) >> 8, 0x10);
    let mut buf = vec![0i16; 44100];
    let v = p.render(&mut buf);
    assert!(v.frame >= 49 && v.frame <= 51);
    assert!(buf.iter().any(|s| *s != 0));
    let again = {
        let mut q = Player::new(&tune(2, 0, 0), 0, 44100).unwrap();
        let mut b = vec![0i16; 44100];
        q.render(&mut b);
        b
    };
    assert_eq!(buf, again);
}

#[test]
fn registers_say_what_a_voice_does() {
    let mut v = Vis { regs: [0; 32], frame: 0 };
    v.regs[7] = 0x34;
    v.regs[8] = 0x12;
    v.regs[11] = 0x81;
    v.regs[13] = 0xa5;
    v.regs[0x18] = 0x7c;
    assert_eq!(v.voice_pitch(1), 0x1234);
    assert_eq!(v.voice_pitch(4), 0);
    assert!(v.voice_gate(1));
    assert_eq!(v.voice_wave(1), 8);
    assert_eq!(v.voice_sustain(1), 10);
    assert_eq!(v.volume(), 12);
}

#[test]
fn rates_that_the_chip_can_be_sampled_at() {
    assert!(!sid::rate_works(30));
    assert!(sid::rate_works(31));
    assert!(sid::rate_works(48000));
    assert!(sid::rate_works(985248));
    assert!(!sid::rate_works(985249));
}

#[test]
fn the_unused_bit_and_the_break_bit_are_fixed() {
    // PHA; PLP; PHP; PLA; RTS
    assert_eq!(run(&[0x48, 0x28, 0x08, 0x68, 0x60], 0x00).accumulator(), 0x30);
    assert_eq!(run(&[0x48, 0x28, 0x08, 0x68, 0x60], 0xcf).accumulator(), 0xff);
}

#[test]
fn a_step_says_whether_it_could_be_taken() {
    let mut c = Cpu::new(Sid::new(ChipModel::Mos6581));
    // INX; an opcode that is not emulated
    c.load(0, &vec![0xe8, 0x02]);
    assert!(c.step());
    assert!(!c.step());
    assert!(!c.step());
}
