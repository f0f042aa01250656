//! The desktop browser's state: sections that are shown as a strip and can be opened to a
//! grid, the progress of loading covers, and the launching of games with licensed ROMs.

use crate::grid::min_int;
use crate::paths::{inside, join_path};
use crate::roms::{Forever, Licensed};
use crate::run::{
    add_text, add_texts, law_screen_and_speed_are_as_asked, law_the_keyboard_can_be_chosen,
    no_setting_says, play_flags, play_options, Asked, Launch, RunArgs,
};
use crate::text::{append, contains, decimal, decimal_text, has_part, opt_text, texts};
use vstd::prelude::*;

verus! {

/// How many games the strip of a section shows.
pub const GAMES_IN_STRIP: usize = 8;

/// How many demos the strip of a section shows.
pub const DEMOS_IN_STRIP: usize = 6;

// ---- sections -----------------------------------------------------------------------------------

/// A section that is shown as a strip, or open as a grid.
#[derive(Clone, Copy, PartialEq, Eq, Structural, Debug)]
pub struct Strip {
    /// How many items the section has.
    pub total: usize,
    /// How many of them the strip shows.
    pub max: usize,
    /// Whether the grid is shown.
    pub open: bool,
    /// Whether the grid has its cards.
    pub filled: bool,
}

impl Strip {
    /// A grid that is shown has its cards.
    pub open spec fn wf(self) -> bool {
        self.open ==> self.filled
    }

    /// The text on the button: how to show all, or less.
    pub open spec fn label_text(self) -> Seq<char> {
        if self.open {
            "Show Less"@
        } else {
            "Show All ("@ + decimal(self.total as nat) + ")"@
        }
    }

    /// The section after a click on the button.
    pub open spec fn toggled(self) -> Strip {
        Strip { open: !self.open, filled: self.filled || !self.open, ..self }
    }

    pub fn new(total: usize, max: usize) -> (r: Strip)
        ensures
            r == (Strip { total, max, open: false, filled: false }),
            r.wf(),
    {
        Strip { total, max, open: false, filled: false }
    }

    /// Whether there is more than the strip shows; only then there is a button.
    pub fn has_overflow(&self) -> (r: bool)
        ensures
            r == (self.total > self.max),
    {
        self.total > self.max
    }

    /// How many cards the strip shows.
    pub fn shown(&self) -> (r: usize)
        ensures
            r == min_int(self.total as int, self.max as int),
    {
        if self.total <= self.max {
            self.total
        } else {
            self.max
        }
    }

    /// The text on the button.
    pub fn label(&self) -> (r: String)
        ensures
            r@ == self.label_text(),
    {
        if self.open {
            "Show Less".to_string()
        } else {
            let a = append("Show All (", decimal_text(self.total as u64).as_str());
            append(a.as_str(), ")")
        }
    }

    /// Switches between strip and grid. Returns whether the grid has to get its cards now,
    /// which is so the first time that it is shown.
    pub fn toggle(&mut self) -> (fill: bool)
        requires
            old(self).wf(),
        ensures
            final(self).wf(),
            *final(self) == old(self).toggled(),
            fill == (!old(self).open && !old(self).filled),
    {
        if self.open {
            self.open = false;
            false
        } else {
            let fill = !self.filled;
            self.open = true;
            self.filled = true;
            fill
        }
    }
}

// ---- progress --------------------------------------------------------------------------------------

/// How many covers of a section are loaded.
#[derive(Clone, Copy, PartialEq, Eq, Structural, Debug)]
pub struct Covers {
    pub done: usize,
    pub total: usize,
}

impl Covers {
    pub fn new(total: usize) -> (r: Covers)
        ensures
            r == (Covers { done: 0, total }),
    {
        Covers { done: 0, total }
    }

    /// One more is loaded. Returns whether that was the last.
    pub fn one_more(&mut self) -> (last: bool)
        requires
            old(self).done < usize::MAX,
        ensures
            *final(self) == (Covers { done: (old(self).done + 1) as usize, ..*old(self) }),
            last == (old(self).done + 1 >= old(self).total),
    {
        self.done = self.done + 1;
        self.done >= self.total
    }

    /// What is said of it.
    pub fn label(&self) -> (r: String)
        ensures
            r@ == "Loading covers \u{2014} "@ + decimal(self.done as nat) + " / "@ + decimal(
                self.total as nat,
            ),
    {
        let a = append("Loading covers \u{2014} ", decimal_text(self.done as u64).as_str());
        let b = append(a.as_str(), " / ");
        append(b.as_str(), decimal_text(self.total as u64).as_str())
    }
}

/// What the bar says while an index is built, and what stands below it.
pub fn scan_labels(done: u64, total: u64) -> (r: (String, String))
    ensures
        r.0@ == decimal(done as nat) + "/"@ + decimal(total as nat),
        r.1@ == "LOADING "@ + decimal(done as nat) + " OF "@ + decimal(total as nat) + "..."@,
{
    let d = decimal_text(done);
    let t = decimal_text(total);
    let bar = append(append(d.as_str(), "/").as_str(), t.as_str());
    let mut below = append("LOADING ", d.as_str());
    below.append(" OF ");
    below.append(t.as_str());
    below.append("...");
    (bar, below)
}

// ---- colours -------------------------------------------------------------------------------------------

/// A digit of a number in base sixteen.
pub open spec fn hex_digit(n: int) -> char {
    if n < 10 {
        ('0' as u32 + n) as char
    } else {
        ('A' as u32 + n - 10) as char
    }
}

pub open spec fn hex_byte(b: u8) -> Seq<char> {
    seq![hex_digit(b as int / 16), hex_digit(b as int % 16)]
}

fn hex_char(n: u8) -> (c: char)
    requires
        n < 16,
    ensures
        c == hex_digit(n as int),
{
    if n < 10 {
        (0x30 + n) as char
    } else {
        (0x41 + (n - 10)) as char
    }
}

/// A colour as style sheets write it.
pub fn colour_text(r: u8, g: u8, b: u8) -> (s: String)
    ensures
        s@ == "#"@ + hex_byte(r) + hex_byte(g) + hex_byte(b),
{
    let mut s = "#".to_string();
    s.push(hex_char(r / 16));
    s.push(hex_char(r % 16));
    s.push(hex_char(g / 16));
    s.push(hex_char(g % 16));
    s.push(hex_char(b / 16));
    s.push(hex_char(b % 16));
    assert(s@ =~= "#"@ + hex_byte(r) + hex_byte(g) + hex_byte(b));
    s
}

// ---- launching -----------------------------------------------------------------------------------------

/// How games are launched.
#[derive(Clone, Debug)]
pub struct LaunchOpts {
    pub warp: bool,
    pub fullscreen: bool,
    pub keyboard: bool,
    pub drive_sound: Option<bool>,
    pub forever: Forever,
}

/// How games are launched by the settings. Without licensed ROMs none is.
pub fn launch_opts(warp: bool, fullscreen: bool, drive_sound: bool, forever: Option<Forever>) -> (r:
    Option<LaunchOpts>)
    ensures
        match (r, forever) {
            (Some(o), Some(f)) => o.warp == warp && o.fullscreen == fullscreen && !o.keyboard
                && o.drive_sound == Some(drive_sound) && o.forever == f,
            (None, None) => true,
            _ => false,
        },
{
    match forever {
        Some(f) => Some(
            LaunchOpts {
                warp,
                fullscreen,
                keyboard: false,
                drive_sound: Some(drive_sound),
                forever: f,
            },
        ),
        None => None,
    }
}

/// The program of the emulator for the licensed ROMs: the one that comes with them, or the
/// native one.
pub open spec fn licensed_program(l: Licensed, native: Seq<Seq<char>>) -> Seq<Seq<char>> {
    match l {
        Licensed::BundledVice { x64_exe, wine_prefix } => seq!["wine"@, x64_exe],
        Licensed::RomDir(_) => native,
    }
}

/// The option for a ROM file of a directory, where the emulator's help text lists it.
pub open spec fn rom_option(help: Seq<char>, dir: Seq<char>, option: Seq<char>, file: Seq<char>) -> Seq<
    Seq<char>,
> {
    if has_part(help, option) {
        seq![option, inside(dir, file)]
    } else {
        Seq::empty()
    }
}

/// The options for the licensed ROMs: the native emulator is given the files, and the one
/// that comes with them has its own.
pub open spec fn rom_options(l: Licensed, help: Seq<char>) -> Seq<Seq<char>> {
    match l {
        Licensed::BundledVice { x64_exe, wine_prefix } => Seq::empty(),
        Licensed::RomDir(dir) => rom_option(help, dir, "-kernal"@, "kernal"@) + rom_option(
            help,
            dir,
            "-basic"@,
            "basic"@,
        ) + rom_option(help, dir, "-chargen"@, "chargen"@),
    }
}

/// The program of the emulator for the licensed ROMs.
pub fn emulator_program(f: &Forever, native: &Vec<String>) -> (r: Vec<String>)
    ensures
        texts(r@) == licensed_program(f@, texts(native@)),
{
    let mut v: Vec<String> = Vec::new();
    assert(texts(v@) =~= Seq::empty());
    match f {
        Forever::BundledVice { x64_exe, wine_prefix: _ } => {
            add_text(&mut v, "wine");
            add_text(&mut v, x64_exe.as_str());
        },
        Forever::RomDir(_) => add_texts(&mut v, native),
    }
    assert(texts(v@) =~= licensed_program(f@, texts(native@)));
    v
}

fn add_rom(v: &mut Vec<String>, help: &str, dir: &str, option: &str, file: &str)
    ensures
        texts(final(v)@) == texts(old(v)@) + rom_option(help@, dir@, option@, file@),
{
    if contains(help, option) {
        add_text(v, option);
        add_text(v, join_path(dir, file).as_str());
    }
    assert(texts(v@) =~= texts(old(v)@) + rom_option(help@, dir@, option@, file@));
}

/// The options for the licensed ROMs.
pub fn rom_args(f: &Forever, help: &str) -> (r: Vec<String>)
    ensures
        texts(r@) == rom_options(f@, help@),
{
    let mut v: Vec<String> = Vec::new();
    assert(texts(v@) =~= Seq::empty());
    match f {
        Forever::BundledVice { x64_exe: _, wine_prefix: _ } => {},
        Forever::RomDir(dir) => {
            add_rom(&mut v, help, dir.as_str(), "-kernal", "kernal");
            add_rom(&mut v, help, dir.as_str(), "-basic", "basic");
            add_rom(&mut v, help, dir.as_str(), "-chargen", "chargen");
        },
    }
    assert(texts(v@) =~= rom_options(f@, help@));
    v
}

/// What the options ask of the emulator.
pub open spec fn asked_of(o: LaunchOpts) -> Asked {
    Asked {
        warp: o.warp,
        fullscreen: o.fullscreen,
        list_only: false,
        keyboard: o.keyboard,
        drive_sound: o.drive_sound,
        words: Seq::empty(),
    }
}

/// The command that starts a game with the licensed ROMs: they have the drive's, so that
/// the drive is never virtual.
pub open spec fn spawn_words(
    o: LaunchOpts,
    native: Seq<Seq<char>>,
    l: Launch,
    game: Seq<char>,
) -> Seq<Seq<char>> {
    licensed_program(o.forever@, native) + play_options(l, false, asked_of(o)) + rom_options(
        o.forever@,
        l.help@,
    ) + seq!["-autostart"@, game]
}

/// The command that starts a game with the licensed ROMs.
pub fn spawn_command(o: &LaunchOpts, native: &Vec<String>, l: &Launch, game: &str) -> (r: Vec<String>)
    ensures
        texts(r@) == spawn_words(*o, texts(native@), *l, game@),
{
    let a = RunArgs {
        warp: o.warp,
        fullscreen: o.fullscreen,
        list_only: false,
        keyboard: o.keyboard,
        drive_sound: o.drive_sound,
        words: Vec::new(),
    };
    assert(a@ =~= asked_of(*o)) by {
        assert(texts(a.words@) =~= Seq::empty());
    }
    let mut v = emulator_program(&o.forever, native);
    add_texts(&mut v, &play_flags(l, false, &a));
    add_texts(&mut v, &rom_args(&o.forever, l.help.as_str()));
    let ghost so_far = texts(v@);
    add_text(&mut v, "-autostart");
    add_text(&mut v, game);
    assert(texts(v@) =~= so_far + seq!["-autostart"@, game@]);
    v
}

/// The prefix that the bundled emulator runs under.
pub fn wine_prefix(o: &LaunchOpts) -> (r: Option<String>)
    ensures
        opt_text(r) == match o.forever@ {
            Licensed::BundledVice { x64_exe, wine_prefix } => wine_prefix,
            Licensed::RomDir(_) => None,
        },
{
    match &o.forever {
        Forever::BundledVice { x64_exe: _, wine_prefix } => match wine_prefix {
            Some(p) => Some(p.clone()),
            None => None,
        },
        Forever::RomDir(_) => None,
    }
}

// ---- laws -----------------------------------------------------------------------------------------------

/// Closing a section undoes opening it, and the cards of its grid are made once.
pub proof fn law_closing_restores_the_strip(s: Strip)
    requires
        s.wf(),
        !s.open,
    ensures
        s.toggled().toggled() == (Strip { filled: true, ..s }),
        s.toggled().toggled().label_text() == s.label_text(),
        s.toggled().toggled().toggled() == s.toggled(),
{
}

// ---- the command of the desktop ------------------------------------------------------------------------------------

/// The desktop starts a game as it is asked: on the whole screen and with a fast load just
/// where that is set, and always with the exact drive.
pub proof fn law_the_desktop_starts_as_asked(
    o: LaunchOpts,
    native: Seq<Seq<char>>,
    l: Launch,
    game: Seq<char>,
)
    ensures
        ({
            let c = spawn_words(o, native, l, game);
            let program = licensed_program(o.forever@, native);
            let options = play_options(l, false, asked_of(o));
            let roms = rom_options(o.forever@, l.help@);
            &&& c.len() == program.len() + options.len() + roms.len() + 2
            &&& c.take(program.len() as int) == program
            &&& c.subrange(program.len() as int, (program.len() + options.len()) as int) == options
            &&& c.subrange(
                (program.len() + options.len()) as int,
                (program.len() + options.len() + roms.len()) as int,
            ) == roms
            &&& c[c.len() - 2] == "-autostart"@
            &&& c.last() == game
            &&& no_setting_says(l, "-VICIIfull"@) ==> (options.contains("-VICIIfull"@)
                <==> o.fullscreen)
            &&& no_setting_says(l, "-autostart-warp"@) ==> (options.contains("-autostart-warp"@)
                <==> o.warp)
            &&& o.keyboard ==> options == play_options(
                Launch { joystick: false, ..l },
                false,
                asked_of(o),
            )
            &&& asked_of(o).drive_sound == o.drive_sound
        }),
{
    let c = spawn_words(o, native, l, game);
    let program = licensed_program(o.forever@, native);
    let options = play_options(l, false, asked_of(o));
    let roms = rom_options(o.forever@, l.help@);
    law_screen_and_speed_are_as_asked(l, false, asked_of(o));
    law_the_keyboard_can_be_chosen(l, false, asked_of(o));
    assert(c.take(program.len() as int) =~= program);
    assert(c.subrange(program.len() as int, (program.len() + options.len()) as int) =~= options);
    assert(c.subrange(
        (program.len() + options.len()) as int,
        (program.len() + options.len() + roms.len()) as int,
    ) =~= roms);
}

/// The emulator that comes with the ROMs runs under wine and is given none of them; the
/// native one is given each ROM file of the directory for which it lists an option.
pub proof fn law_roms_go_to_the_native_emulator(
    exe: Seq<char>,
    prefix: Option<Seq<char>>,
    dir: Seq<char>,
    native: Seq<Seq<char>>,
    help: Seq<char>,
)
    ensures
        ({
            let bundled = Licensed::BundledVice { x64_exe: exe, wine_prefix: prefix };
            let files = Licensed::RomDir(dir);
            let o = rom_options(files, help);
            &&& licensed_program(bundled, native) == seq!["wine"@, exe]
            &&& rom_options(bundled, help).len() == 0
            &&& licensed_program(files, native) == native
            &&& has_part(help, "-kernal"@) && has_part(help, "-basic"@) && has_part(help, "-chargen"@)
                ==> o == seq![
                "-kernal"@,
                inside(dir, "kernal"@),
                "-basic"@,
                inside(dir, "basic"@),
                "-chargen"@,
                inside(dir, "chargen"@),
            ]
            &&& !has_part(help, "-kernal"@) && !has_part(help, "-basic"@) && !has_part(
                help,
                "-chargen"@,
            ) ==> o.len() == 0
        }),
{
    let o = rom_options(Licensed::RomDir(dir), help);
    if has_part(help, "-kernal"@) && has_part(help, "-basic"@) && has_part(help, "-chargen"@) {
        assert(o =~= seq![
            "-kernal"@,
            inside(dir, "kernal"@),
            "-basic"@,
            inside(dir, "basic"@),
            "-chargen"@,
            inside(dir, "chargen"@),
        ]);
    }
}

/// A click shows all where less was shown and less where all was; the cards stay.
pub proof fn law_clicks_turn_the_strip(s: Strip)
    ensures
        s.toggled().open != s.open,
        s.toggled().filled == (s.filled || s.toggled().open),
        s.toggled().total == s.total && s.toggled().max == s.max,
        s.open ==> s.label_text() == "Show Less"@,
        !s.open ==> s.label_text() == "Show All ("@ + decimal(s.total as nat) + ")"@,
{
}

/// A byte is written with two digits that say its value in base sixteen.
pub proof fn law_bytes_in_hexadecimal(b: u8)
    ensures
        hex_byte(b).len() == 2,
        ({
            let value = |c: char| if '0' <= c <= '9' {
                c as u32 - '0' as u32
            } else {
                c as u32 - 'A' as u32 + 10
            };
            16 * value(hex_byte(b)[0]) + value(hex_byte(b)[1]) == b
        }),
{
    let h = b as int / 16;
    let l = b as int % 16;
    assert(('0' as u32 + h) as u32 as char as u32 == '0' as u32 + h);
}

} // verus!
