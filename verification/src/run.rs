//! Starting a game: which emulator, and with which options.

use crate::formats::{shell_words, split_words};
use crate::paths::{file_name, name_in};
use crate::text::{
    append, ascii_lowered, begins, chars_of, contains, ends, ends_with, has_part, lines,
    lines_of, lowered, number_of, opt_text, parse_i64, parse_u64, same, starts_with,
    string_range, texts, to_ascii_lowercase, to_lowercase, trim, trimmed,
};
use crate::tosec::{after_last, text_after_last};
use vstd::prelude::*;

verus! {

/// Adds a text to a list.
pub fn add_text(v: &mut Vec<String>, s: &str)
    ensures
        texts(final(v)@) == texts(old(v)@).push(s@),
{
    let t = s.to_owned();
    let ghost was = v@;
    v.push(t);
    assert(texts(v@) =~= texts(was).push(s@));
}

// ---- settings ----------------------------------------------------------------------------------------

/// A setting that is on: anything but an empty text, "0", "false" and "no".
pub open spec fn is_on(v: Seq<char>) -> bool {
    let t = trimmed(v);
    !(t.len() == 0 || t == "0"@ || t == "false"@ || t == "no"@)
}

pub fn setting_on(v: &str) -> (r: bool)
    ensures
        r == is_on(v@),
{
    let t = trim(v);
    let s = t.as_str();
    !(s.is_empty() || same(s, "0") || same(s, "false") || same(s, "no"))
}

// ---- the command line ----------------------------------------------------------------------------------

/// What is asked for.
#[derive(Debug)]
pub struct RunArgs {
    pub warp: bool,
    pub fullscreen: bool,
    pub list_only: bool,
    pub keyboard: bool,
    /// The drive's sound, where the command line says.
    pub drive_sound: Option<bool>,
    pub words: Vec<String>,
}

/// What is asked for.
#[verifier::ext_equal]
pub struct Asked {
    pub warp: bool,
    pub fullscreen: bool,
    pub list_only: bool,
    pub keyboard: bool,
    pub drive_sound: Option<bool>,
    pub words: Seq<Seq<char>>,
}

impl View for RunArgs {
    type V = Asked;

    open spec fn view(&self) -> Asked {
        Asked {
            warp: self.warp,
            fullscreen: self.fullscreen,
            list_only: self.list_only,
            keyboard: self.keyboard,
            drive_sound: self.drive_sound,
            words: texts(self.words@),
        }
    }
}

/// What a command line comes to.
#[derive(Debug)]
pub enum RunCommand {
    Help,
    UnknownOption(String),
    NothingGiven,
    Run(RunArgs),
}

/// What a command line comes to.
pub enum Command {
    Help,
    UnknownOption(Seq<char>),
    NothingGiven,
    Run(Asked),
}

impl View for RunCommand {
    type V = Command;

    open spec fn view(&self) -> Command {
        match *self {
            RunCommand::Help => Command::Help,
            RunCommand::UnknownOption(s) => Command::UnknownOption(s@),
            RunCommand::NothingGiven => Command::NothingGiven,
            RunCommand::Run(a) => Command::Run(a@),
        }
    }
}

/// What is asked for before any argument: a fast load, on the whole screen.
pub open spec fn asked_first() -> Asked {
    Asked {
        warp: true,
        fullscreen: true,
        list_only: false,
        keyboard: false,
        drive_sound: None,
        words: Seq::empty(),
    }
}

pub open spec fn is_help(a: Seq<char>) -> bool {
    a == "-h"@ || a == "--help"@
}

impl Asked {
    /// What is asked for after an option; `None` when there is no such option.
    pub open spec fn with_option(self, a: Seq<char>) -> Option<Asked> {
        if a == "-w"@ || a == "--warp"@ {
            Some(Asked { warp: true, ..self })
        } else if a == "-W"@ || a == "--no-warp"@ || a == "-r"@ || a == "--real"@ {
            Some(Asked { warp: false, ..self })
        } else if a == "-f"@ || a == "--fullscreen"@ {
            Some(Asked { fullscreen: true, ..self })
        } else if a == "--windowed"@ {
            Some(Asked { fullscreen: false, ..self })
        } else if a == "-k"@ || a == "--keyboard"@ {
            Some(Asked { keyboard: true, ..self })
        } else if a == "--drive-sound"@ {
            Some(Asked { drive_sound: Some(true), ..self })
        } else if a == "--no-drive-sound"@ {
            Some(Asked { drive_sound: Some(false), ..self })
        } else if a == "-l"@ || a == "--list"@ {
            Some(Asked { list_only: true, ..self })
        } else {
            None
        }
    }

    /// What the arguments from `i` on come to. After "--" all are words.
    pub open spec fn with_args(self, argv: Seq<Seq<char>>, i: int) -> Command
        decreases argv.len() - i,
    {
        if i < 0 || i >= argv.len() {
            if self.words.len() == 0 {
                Command::NothingGiven
            } else {
                Command::Run(self)
            }
        } else if is_help(argv[i]) {
            Command::Help
        } else if argv[i] == "--"@ {
            let words = self.words + argv.skip(i + 1);
            if words.len() == 0 {
                Command::NothingGiven
            } else {
                Command::Run(Asked { words, ..self })
            }
        } else {
            match self.with_option(argv[i]) {
                Some(next) => next.with_args(argv, i + 1),
                None => if begins(argv[i], "-"@) {
                    Command::UnknownOption(argv[i])
                } else {
                    Asked { words: self.words.push(argv[i]), ..self }.with_args(argv, i + 1)
                },
            }
        }
    }
}

impl RunArgs {
    /// Takes an option. Returns whether there is such an option.
    fn take_option(&mut self, a: &str) -> (known: bool)
        ensures
            match old(self)@.with_option(a@) {
                Some(next) => known && final(self)@ == next,
                None => !known && final(self)@ == old(self)@,
            },
    {
        if same(a, "-w") || same(a, "--warp") {
            self.warp = true;
        } else if same(a, "-W") || same(a, "--no-warp") || same(a, "-r") || same(a, "--real") {
            self.warp = false;
        } else if same(a, "-f") || same(a, "--fullscreen") {
            self.fullscreen = true;
        } else if same(a, "--windowed") {
            self.fullscreen = false;
        } else if same(a, "-k") || same(a, "--keyboard") {
            self.keyboard = true;
        } else if same(a, "--drive-sound") {
            self.drive_sound = Some(true);
        } else if same(a, "--no-drive-sound") {
            self.drive_sound = Some(false);
        } else if same(a, "-l") || same(a, "--list") {
            self.list_only = true;
        } else {
            return false;
        }
        true
    }
}

/// Reads a command line.
pub fn parse_run(argv: &Vec<String>) -> (r: RunCommand)
    ensures
        r@ == asked_first().with_args(texts(argv@), 0),
{
    let ghost all = texts(argv@);
    let mut a = RunArgs {
        warp: true,
        fullscreen: true,
        list_only: false,
        keyboard: false,
        drive_sound: None,
        words: Vec::new(),
    };
    assert(a@ =~= asked_first());
    let mut i: usize = 0;
    while i < argv.len()
        invariant
            all == texts(argv@),
            i <= argv@.len(),
            a@.with_args(all, i as int) == asked_first().with_args(all, 0),
        decreases argv@.len() - i,
    {
        let arg = argv[i].as_str();
        assert(all[i as int] == arg@);
        if same(arg, "-h") || same(arg, "--help") {
            return RunCommand::Help;
        }
        if same(arg, "--") {
            let ghost was = a@;
            let mut k: usize = i + 1;
            assert(all.skip(i + 1).take(0) =~= Seq::empty());
            while k < argv.len()
                invariant
                    all == texts(argv@),
                    i < k <= argv@.len(),
                    a@ == (Asked { words: was.words + all.skip(i + 1).take(k - i - 1), ..was }),
                decreases argv@.len() - k,
            {
                let ghost mid = texts(a.words@);
                add_text(&mut a.words, argv[k].as_str());
                proof {
                    assert(all[k as int] == argv@[k as int]@);
                    assert(all.skip(i + 1).take(k - i) =~= all.skip(i + 1).take(k - i - 1).push(
                        all[k as int],
                    ));
                    assert(a@.words =~= was.words + all.skip(i + 1).take(k - i));
                }
                k += 1;
            }
            assert(all.skip(i + 1).take(k - i - 1) =~= all.skip(i + 1));
            assert(texts(a.words@).len() == a.words@.len());
            if a.words.len() == 0 {
                return RunCommand::NothingGiven;
            }
            return RunCommand::Run(a);
        }
        if !a.take_option(arg) {
            if starts_with(arg, "-") {
                return RunCommand::UnknownOption(arg.to_owned());
            }
            add_text(&mut a.words, arg);
        }
        i += 1;
    }
    assert(texts(a.words@).len() == a.words@.len());
    if a.words.len() == 0 {
        RunCommand::NothingGiven
    } else {
        RunCommand::Run(a)
    }
}

// ---- the emulator -----------------------------------------------------------------------------------------

/// What there is to start a game with.
#[derive(Debug)]
pub struct Emulators {
    /// A command line to use instead of any found.
    pub setting: Option<String>,
    pub x64sc: bool,
    pub x64: bool,
    /// The flatpak of VICE.
    pub flatpak: bool,
    /// VICE as it comes with C64 Forever, for wine.
    pub wine: bool,
}

/// Why there is no emulator.
#[derive(Debug)]
pub enum NoEmulator {
    /// The setting cannot be read as a command line.
    BadSetting,
    NoneFound,
}

/// Where C64 Forever has its VICE.
pub open spec fn wine_x64_path() -> Seq<char> {
    "/opt/wine/.wine/drive_c/Program Files (x86)/Cloanto/C64 Forever/VICE/x64.exe"@
}

/// The command of the emulator: the setting's, else one that needs no licence
/// before one that does.
pub open spec fn emulator_command(e: Emulators) -> Result<Seq<Seq<char>>, NoEmulator> {
    match e.setting {
        Some(line) => match shell_words(line@) {
            Some(words) => Ok(words),
            None => Err(NoEmulator::BadSetting),
        },
        None => if e.x64sc {
            Ok(seq!["x64sc"@])
        } else if e.x64 {
            Ok(seq!["x64"@])
        } else if e.flatpak {
            Ok(seq!["flatpak"@, "run"@, "--command=x64sc"@, "net.sf.VICE"@])
        } else if e.wine {
            Ok(seq!["wine"@, wine_x64_path()])
        } else {
            Err(NoEmulator::NoneFound)
        },
    }
}

pub open spec fn command_view(r: Result<Vec<String>, NoEmulator>) -> Result<
    Seq<Seq<char>>,
    NoEmulator,
> {
    match r {
        Ok(v) => Ok(texts(v@)),
        Err(e) => Err(e),
    }
}

/// The command of the emulator.
pub fn pick_emulator(e: &Emulators) -> (r: Result<Vec<String>, NoEmulator>)
    ensures
        command_view(r) == emulator_command(*e),
{
    let mut v: Vec<String> = Vec::new();
    assert(texts(v@) =~= Seq::empty());
    match &e.setting {
        Some(line) => {
            return match split_words(line.as_str()) {
                Some(words) => Ok(words),
                None => Err(NoEmulator::BadSetting),
            };
        },
        None => {},
    }
    if e.x64sc {
        add_text(&mut v, "x64sc");
        assert(texts(v@) =~= seq!["x64sc"@]);
        Ok(v)
    } else if e.x64 {
        add_text(&mut v, "x64");
        assert(texts(v@) =~= seq!["x64"@]);
        Ok(v)
    } else if e.flatpak {
        add_text(&mut v, "flatpak");
        add_text(&mut v, "run");
        add_text(&mut v, "--command=x64sc");
        add_text(&mut v, "net.sf.VICE");
        assert(texts(v@) =~= seq!["flatpak"@, "run"@, "--command=x64sc"@, "net.sf.VICE"@]);
        Ok(v)
    } else if e.wine {
        add_text(&mut v, "wine");
        add_text(
            &mut v,
            "/opt/wine/.wine/drive_c/Program Files (x86)/Cloanto/C64 Forever/VICE/x64.exe",
        );
        assert(texts(v@) =~= seq!["wine"@, wine_x64_path()]);
        Ok(v)
    } else {
        Err(NoEmulator::NoneFound)
    }
}

// ---- its options -----------------------------------------------------------------------------------------------

/// An option, where the emulator's help text lists it.
pub open spec fn if_listed(help: Seq<char>, option: Seq<char>) -> Seq<Seq<char>> {
    if has_part(help, option) {
        seq![option]
    } else {
        Seq::empty()
    }
}

/// The options for drive 8, of those that the emulator's help text lists: the
/// cycle-exact drive, or the virtual one that needs no ROM.
pub open spec fn drive_options(help: Seq<char>, virtual_drive: bool) -> Seq<Seq<char>> {
    if virtual_drive {
        if has_part(help, "-virtualdev8"@) {
            seq!["-virtualdev8"@]
        } else if has_part(help, "-trapdevice8"@) {
            seq!["-trapdevice8"@] + if_listed(help, "+drive8truedrive"@)
        } else {
            Seq::empty()
        }
    } else if has_part(help, "-drive8truedrive"@) {
        if has_part(help, "-autostart-handle-tde"@) {
            seq!["-drive8truedrive"@] + if_listed(help, "-trapdevice8"@) + seq![
                "-autostart-handle-tde"@,
            ]
        } else {
            seq!["-drive8truedrive"@]
        }
    } else if has_part(help, "-truedrive"@) {
        seq!["-truedrive"@]
    } else {
        Seq::empty()
    }
}

/// The options for drive 8. An unknown option makes the emulator stop, so none is given
/// that its help text does not list.
pub fn drive_flags(help: &str, virtual_drive: bool) -> (r: Vec<String>)
    ensures
        texts(r@) == drive_options(help@, virtual_drive),
        forall|i: int| 0 <= i < r@.len() ==> has_part(help@, #[trigger] texts(r@)[i]),
{
    let mut v: Vec<String> = Vec::new();
    assert(texts(v@) =~= Seq::empty());
    if virtual_drive {
        if contains(help, "-virtualdev8") {
            add_text(&mut v, "-virtualdev8");
        } else if contains(help, "-trapdevice8") {
            add_text(&mut v, "-trapdevice8");
            if contains(help, "+drive8truedrive") {
                add_text(&mut v, "+drive8truedrive");
            }
        }
    } else if contains(help, "-drive8truedrive") {
        add_text(&mut v, "-drive8truedrive");
        if contains(help, "-autostart-handle-tde") {
            if contains(help, "-trapdevice8") {
                add_text(&mut v, "-trapdevice8");
            }
            add_text(&mut v, "-autostart-handle-tde");
        }
    } else if contains(help, "-truedrive") {
        add_text(&mut v, "-truedrive");
    }
    assert(texts(v@) =~= drive_options(help@, virtual_drive));
    v
}

/// The drive makes its sound: as the command line says, else as the setting says,
/// else yes.
pub open spec fn sound_wanted(cli: Option<bool>, setting: Option<Seq<char>>) -> bool {
    match cli {
        Some(on) => on,
        None => match setting {
            Some(v) => is_on(v),
            None => true,
        },
    }
}

/// The text is a number that fits a `u32`, with space around it or none.
pub open spec fn is_volume(s: Seq<char>) -> bool {
    let t = trimmed(s);
    number_of(t) matches Some(n) && n <= u32::MAX && t[0] != '-'
}

/// The volume of the drive: the setting, where it is a number.
pub open spec fn volume_of(setting: Option<Seq<char>>) -> Seq<char> {
    match setting {
        Some(s) => if is_volume(s) {
            s
        } else {
            "2000"@
        },
        None => "2000"@,
    }
}

/// The options for the sound of the drive, of those that the help text knows.
pub open spec fn sound_options(
    help: Seq<char>,
    cli: Option<bool>,
    setting: Option<Seq<char>>,
    volume: Option<Seq<char>>,
) -> Seq<Seq<char>> {
    if !sound_wanted(cli, setting) || !has_part(help, "-drivesound"@) {
        Seq::empty()
    } else if has_part(help, "-drivesoundvolume"@) {
        seq!["-drivesound"@, "-drivesoundvolume"@, volume_of(volume)]
    } else {
        seq!["-drivesound"@]
    }
}

fn valid_volume(s: &str) -> (r: bool)
    ensures
        r == is_volume(s@),
{
    match parse_u64(trim(s).as_str()) {
        Some(n) => n <= u32::MAX as u64,
        None => false,
    }
}

/// The options for the sound of the drive.
pub fn drive_sound_flags(
    help: &str,
    cli: Option<bool>,
    setting: &Option<String>,
    volume: &Option<String>,
) -> (r: Vec<String>)
    ensures
        texts(r@) == sound_options(help@, cli, opt_text(*setting), opt_text(*volume)),
{
    let mut v: Vec<String> = Vec::new();
    assert(texts(v@) =~= Seq::empty());
    let on = match cli {
        Some(on) => on,
        None => match setting {
            Some(s) => setting_on(s.as_str()),
            None => true,
        },
    };
    if !on || !contains(help, "-drivesound") {
        return v;
    }
    add_text(&mut v, "-drivesound");
    if contains(help, "-drivesoundvolume") {
        add_text(&mut v, "-drivesoundvolume");
        match volume {
            Some(s) => if valid_volume(s.as_str()) {
                add_text(&mut v, s.as_str());
            } else {
                add_text(&mut v, "2000");
            },
            None => add_text(&mut v, "2000"),
        }
    }
    assert(texts(v@) =~= sound_options(help@, cli, opt_text(*setting), opt_text(*volume)));
    v
}

/// How the two players play, a line for each.
pub open spec fn controls(joystick: bool) -> Seq<Seq<char>> {
    if joystick {
        seq![
            "Player 1   Joystick"@,
            "Player 2   Keyboard \u{2014} W A S D move, Space = fire"@,
        ]
    } else {
        seq![
            "Player 1   Keyboard \u{2014} W A S D move, Space = fire"@,
            "Player 2   Keyboard \u{2014} Arrow keys move, Right-Shift = fire"@,
        ]
    }
}

/// How the two players play, a line for each.
pub fn controls_description(joystick: bool) -> (r: Vec<String>)
    ensures
        texts(r@) == controls(joystick),
{
    let mut v: Vec<String> = Vec::new();
    assert(texts(v@) =~= Seq::empty());
    if joystick {
        add_text(&mut v, "Player 1   Joystick");
        add_text(&mut v, "Player 2   Keyboard \u{2014} W A S D move, Space = fire");
    } else {
        add_text(&mut v, "Player 1   Keyboard \u{2014} W A S D move, Space = fire");
        add_text(&mut v, "Player 2   Keyboard \u{2014} Arrow keys move, Right-Shift = fire");
    }
    assert(texts(v@) =~= controls(joystick));
    v
}

/// The keys of the two keyboard players.
pub open spec fn keysets() -> Seq<char> {
    "KeySetEnable=1\nKeySet1North=119\nKeySet1South=115\nKeySet1West=97\nKeySet1East=100\nKeySet1Fire=32\nKeySet2North=65362\nKeySet2South=65364\nKeySet2West=65361\nKeySet2East=65363\nKeySet2Fire=65506\n"@
}

/// The emulator's configuration of the keys, for both of its names.
pub fn controls_config() -> (r: String)
    ensures
        r@ == "[C64SC]\n"@ + keysets() + "\n[C64]\n"@ + keysets(),
{
    let keys = "KeySetEnable=1\nKeySet1North=119\nKeySet1South=115\nKeySet1West=97\nKeySet1East=100\nKeySet1Fire=32\nKeySet2North=65362\nKeySet2South=65364\nKeySet2West=65361\nKeySet2East=65363\nKeySet2Fire=65506\n";
    append(append(append("[C64SC]\n", keys).as_str(), "\n[C64]\n").as_str(), keys)
}

/// The options for the two control ports. The first player is on port 2: with the
/// joystick where there is one, else with the first set of keys. Without a
/// configuration of the keys only the number pad is left.
pub open spec fn port_options(
    joystick: bool,
    config: Option<Seq<char>>,
    device: Option<Seq<char>>,
) -> Seq<Seq<char>> {
    let first = match config {
        Some(path) => seq!["-config"@, path],
        None => Seq::empty(),
    };
    if joystick {
        first + seq![
            "-joydev2"@,
            match device {
                Some(d) => if trimmed(d).len() > 0 {
                    d
                } else {
                    "4"@
                },
                None => "4"@,
            },
            "-joydev1"@,
            "2"@,
        ]
    } else if config is Some {
        first + seq!["-joydev2"@, "2"@, "-joydev1"@, "3"@]
    } else {
        first + seq!["-joydev2"@, "1"@]
    }
}

/// The options for the two control ports.
pub fn control_flags(joystick: bool, config: &Option<String>, device: &Option<String>) -> (r: Vec<
    String,
>)
    ensures
        texts(r@) == port_options(joystick, opt_text(*config), opt_text(*device)),
{
    let mut v: Vec<String> = Vec::new();
    assert(texts(v@) =~= Seq::empty());
    match config {
        Some(path) => {
            add_text(&mut v, "-config");
            add_text(&mut v, path.as_str());
        },
        None => {},
    }
    if joystick {
        add_text(&mut v, "-joydev2");
        match device {
            Some(d) => if !trim(d.as_str()).as_str().is_empty() {
                add_text(&mut v, d.as_str());
            } else {
                add_text(&mut v, "4");
            },
            None => add_text(&mut v, "4"),
        }
        add_text(&mut v, "-joydev1");
        add_text(&mut v, "2");
    } else if config.is_some() {
        add_text(&mut v, "-joydev2");
        add_text(&mut v, "2");
        add_text(&mut v, "-joydev1");
        add_text(&mut v, "3");
    } else {
        add_text(&mut v, "-joydev2");
        add_text(&mut v, "1");
    }
    assert(texts(v@) =~= port_options(joystick, opt_text(*config), opt_text(*device)));
    v
}

/// The options for a log of the emulator: to the given file, or to the usual one.
pub open spec fn log_options(setting: Option<Seq<char>>, usual: Seq<char>) -> Seq<Seq<char>> {
    match setting {
        Some(s) => seq![
            "-verbose"@,
            "-logfile"@,
            if s == "1"@ || ascii_lowered(s) == "true"@ {
                usual
            } else {
                s
            },
        ],
        None => Seq::empty(),
    }
}

/// All that the options depend on.
#[derive(Debug)]
pub struct Launch {
    pub help: String,
    pub virtual_drive: bool,
    pub sound: Option<String>,
    pub volume: Option<String>,
    /// A joystick is there.
    pub joystick: bool,
    pub config: Option<String>,
    pub device: Option<String>,
    pub log: Option<String>,
    pub usual_log: String,
}

/// The options that a game is started with, whichever emulator it is: those of the drive
/// and its sound, of the speed and the screen, and of the controls. The wish for the keyboard
/// leaves a joystick that is there aside.
pub open spec fn play_options(l: Launch, virtual_drive: bool, a: Asked) -> Seq<Seq<char>> {
    drive_options(l.help@, virtual_drive) + sound_options(
        l.help@,
        a.drive_sound,
        opt_text(l.sound),
        opt_text(l.volume),
    ) + (if a.warp {
        seq!["-autostart-warp"@]
    } else {
        Seq::empty()
    }) + (if a.fullscreen {
        seq!["-VICIIfull"@]
    } else {
        Seq::empty()
    }) + port_options(l.joystick && !a.keyboard, opt_text(l.config), opt_text(l.device))
}

/// The command that starts a game: the emulator with its options, and the game.
pub open spec fn launch_command(
    emulator: Seq<Seq<char>>,
    l: Launch,
    a: Asked,
    game: Seq<char>,
) -> Seq<Seq<char>> {
    emulator + play_options(l, l.virtual_drive, a) + log_options(opt_text(l.log), l.usual_log@)
        + seq!["-autostart"@, game]
}

/// Adds texts to a list.
pub fn add_texts(v: &mut Vec<String>, more: &Vec<String>)
    ensures
        texts(final(v)@) == texts(old(v)@) + texts(more@),
{
    let ghost start = texts(v@);
    let ghost all = texts(more@);
    let mut i: usize = 0;
    assert(start + all.take(0) =~= start);
    while i < more.len()
        invariant
            all == texts(more@),
            i <= more@.len(),
            texts(v@) == start + all.take(i as int),
        decreases more@.len() - i,
    {
        add_text(v, more[i].as_str());
        assert(all[i as int] == more@[i as int]@);
        assert(start + all.take(i + 1) =~= (start + all.take(i as int)).push(all[i as int]));
        i += 1;
    }
    assert(all.take(i as int) =~= all);
}

/// Whether the first player has a joystick: one is there, and the keyboard was not asked for.
pub fn uses_joystick(present: bool, a: &RunArgs) -> (r: bool)
    ensures
        r == (present && !a@.keyboard),
{
    present && !a.keyboard
}

/// The options that a game is started with.
pub fn play_flags(l: &Launch, virtual_drive: bool, a: &RunArgs) -> (r: Vec<String>)
    ensures
        texts(r@) == play_options(*l, virtual_drive, a@),
{
    let mut v = drive_flags(l.help.as_str(), virtual_drive);
    add_texts(&mut v, &drive_sound_flags(l.help.as_str(), a.drive_sound, &l.sound, &l.volume));
    let ghost so_far = texts(v@);
    if a.warp {
        add_text(&mut v, "-autostart-warp");
    }
    assert(texts(v@) =~= so_far + (if a.warp {
        seq!["-autostart-warp"@]
    } else {
        Seq::empty()
    }));
    let ghost so_far = texts(v@);
    if a.fullscreen {
        add_text(&mut v, "-VICIIfull");
    }
    assert(texts(v@) =~= so_far + (if a.fullscreen {
        seq!["-VICIIfull"@]
    } else {
        Seq::empty()
    }));
    add_texts(&mut v, &control_flags(uses_joystick(l.joystick, a), &l.config, &l.device));
    v
}

/// The command that starts a game.
pub fn launch_args(emulator: &Vec<String>, l: &Launch, a: &RunArgs, game: &str) -> (r: Vec<String>)
    ensures
        texts(r@) == launch_command(texts(emulator@), *l, a@, game@),
{
    let mut v: Vec<String> = Vec::new();
    assert(texts(v@) =~= Seq::empty());
    add_texts(&mut v, emulator);
    assert(texts(v@) =~= texts(emulator@));
    add_texts(&mut v, &play_flags(l, l.virtual_drive, a));
    let ghost so_far = texts(v@);
    match &l.log {
        Some(s) => {
            add_text(&mut v, "-verbose");
            add_text(&mut v, "-logfile");
            if same(s.as_str(), "1") || same(to_ascii_lowercase(s.as_str()).as_str(), "true") {
                add_text(&mut v, l.usual_log.as_str());
            } else {
                add_text(&mut v, s.as_str());
            }
        },
        None => {},
    }
    assert(texts(v@) =~= so_far + log_options(opt_text(l.log), l.usual_log@));
    let ghost so_far = texts(v@);
    add_text(&mut v, "-autostart");
    add_text(&mut v, game);
    assert(texts(v@) =~= so_far + seq!["-autostart"@, game@]);
    v
}

// ---- what is there --------------------------------------------------------------------------------------------

/// The name of a directory entry is a joystick's: "js" and a number.
pub open spec fn is_joystick_name(n: Seq<char>) -> bool {
    begins(n, "js"@) && (number_of(n.skip(2)) matches Some(k) && k <= u32::MAX && n[2] != '-')
}

/// The name speaks of a game controller.
pub open spec fn names_controller(n: Seq<char>) -> bool {
    let l = ascii_lowered(n);
    has_part(l, "joystick"@) || has_part(l, "gamepad"@)
}

/// A game controller is there: as the setting says, else if an entry of the device
/// directories is one.
pub open spec fn controller_there(
    setting: Option<Seq<char>>,
    devices: Seq<Seq<char>>,
    by_name: Seq<Seq<char>>,
) -> bool {
    match setting {
        Some(v) => is_on(v),
        None => {
            ||| exists|i: int| 0 <= i < devices.len() && is_joystick_name(#[trigger] devices[i])
            ||| exists|i: int| 0 <= i < by_name.len() && names_controller(#[trigger] by_name[i])
        },
    }
}

fn joystick_name(n: &str) -> (r: bool)
    ensures
        r == is_joystick_name(n@),
{
    proof {
        reveal_strlit("js");
    }
    if !starts_with(n, "js") {
        return false;
    }
    let v = chars_of(n);
    let rest = string_range(&v, 2, v.len());
    assert(rest@ =~= n@.skip(2));
    match parse_u64(rest.as_str()) {
        Some(k) => k <= u32::MAX as u64,
        None => false,
    }
}

fn controller_name(n: &str) -> (r: bool)
    ensures
        r == names_controller(n@),
{
    let l = to_ascii_lowercase(n);
    contains(l.as_str(), "joystick") || contains(l.as_str(), "gamepad")
}

/// Whether a game controller is there: the setting where there is one, the names in
/// the device directory, and those that stand for devices.
pub fn joystick_present(
    setting: &Option<String>,
    devices: &Vec<String>,
    by_name: &Vec<String>,
) -> (r: bool)
    ensures
        r == controller_there(opt_text(*setting), texts(devices@), texts(by_name@)),
{
    match setting {
        Some(v) => {
            return setting_on(v.as_str());
        },
        None => {},
    }
    let ghost ds = texts(devices@);
    let ghost ns = texts(by_name@);
    let mut i: usize = 0;
    while i < devices.len()
        invariant
            ds == texts(devices@),
            i <= devices@.len(),
            forall|k: int| 0 <= k < i ==> !is_joystick_name(#[trigger] ds[k]),
            *setting is None,
        decreases devices@.len() - i,
    {
        assert(ds[i as int] == devices@[i as int]@);
        if joystick_name(devices[i].as_str()) {
            return true;
        }
        i += 1;
    }
    let mut k: usize = 0;
    while k < by_name.len()
        invariant
            ns == texts(by_name@),
            k <= by_name@.len(),
            forall|m: int| 0 <= m < k ==> !names_controller(#[trigger] ns[m]),
            *setting is None,
        decreases by_name@.len() - k,
    {
        assert(ns[k as int] == by_name@[k as int]@);
        if controller_name(by_name[k].as_str()) {
            return true;
        }
        k += 1;
    }
    assert(ds.len() == devices@.len() && ns.len() == by_name@.len());
    false
}

/// The drive that is emulated is the virtual one: as the setting says, else when a
/// native VICE has no ROM for the drive.
pub fn use_virtual_drive(setting: &Option<String>, native: bool, rom: bool) -> (r: bool)
    ensures
        r == match opt_text(*setting) {
            Some(v) => is_on(v),
            None => native && !rom,
        },
{
    match setting {
        Some(v) => setting_on(v.as_str()),
        None => native && !rom,
    }
}

/// The name of a drive ROM.
pub fn is_drive_rom(name: &str) -> (r: bool)
    ensures
        r == begins(ascii_lowered(name@), "dos1541"@),
{
    starts_with(to_ascii_lowercase(name).as_str(), "dos1541")
}

/// An image that can be started.
pub open spec fn is_startable(name: Seq<char>) -> bool {
    let n = lowered(name);
    ends(n, ".d64"@) || ends(n, ".d71"@) || ends(n, ".d81"@) || ends(n, ".t64"@) || ends(n, ".tap"@)
        || ends(n, ".prg"@) || ends(n, ".crt"@) || ends(n, ".g64"@) || ends(n, ".nib"@) || ends(
        n,
        ".p00"@,
    ) || ends(n, ".x64"@)
}

/// Whether a file of the collection matches a query: an image whose name has it.
pub fn matches_query(name: &str, query: &str) -> (r: bool)
    ensures
        r == (is_startable(name@) && has_part(lowered(name@), lowered(query@))),
{
    let n = to_lowercase(name);
    let s = n.as_str();
    (ends_with(s, ".d64") || ends_with(s, ".d71") || ends_with(s, ".d81") || ends_with(s, ".t64")
        || ends_with(s, ".tap") || ends_with(s, ".prg") || ends_with(s, ".crt") || ends_with(
        s,
        ".g64",
    ) || ends_with(s, ".nib") || ends_with(s, ".p00") || ends_with(s, ".x64")) && contains(
        s,
        to_lowercase(query).as_str(),
    )
}

/// The place that a number typed by the user chooses of `n`; `None` when it chooses
/// none.
pub fn chosen(line: &str, n: usize) -> (r: Option<usize>)
    ensures
        match r {
            Some(i) => number_of(trimmed(line@)) == Some(i + 1int) && i < n,
            None => !(number_of(trimmed(line@)) matches Some(k) && 1 <= k <= n && trimmed(line@)[0]
                != '-'),
        },
{
    match parse_u64(trim(line).as_str()) {
        Some(k) => if 1 <= k && k <= n as u64 {
            Some((k - 1) as usize)
        } else {
            None
        },
        None => None,
    }
}

/// The number that a line of the device listing gives for a property; `None` when the
/// line is not about it.
pub open spec fn property_value(line: Seq<char>, property: Seq<char>) -> Option<int> {
    if has_part(line, property) {
        match number_of(trimmed(after_last(line, "="@))) {
            Some(n) => if i64::MIN <= n <= i64::MAX {
                Some(n)
            } else {
                None
            },
            None => None,
        }
    } else {
        None
    }
}

/// Two lines that follow each other describe a controller: a joystick or a game pad, on
/// the page of desktop devices. The same numbers on other pages are other devices.
pub open spec fn describes_controller(a: Seq<char>, b: Seq<char>) -> bool {
    let usage = property_value(a, "\"PrimaryUsage\" ="@);
    (usage == Some(4int) || usage == Some(5int)) && property_value(b, "\"PrimaryUsagePage\" ="@)
        == Some(1int)
}

fn read_property(line: &str, property: &str) -> (r: Option<i64>)
    ensures
        match r {
            Some(n) => property_value(line@, property@) == Some(n as int),
            None => property_value(line@, property@) is None,
        },
{
    if contains(line, property) {
        proof {
            reveal_strlit("=");
        }
        parse_i64(trim(text_after_last(line, "=").as_str()).as_str())
    } else {
        None
    }
}

/// Whether the system's listing of its devices has a game controller.
pub fn lists_controller(listing: &str) -> (r: bool)
    ensures
        r == exists|i: int|
            0 <= i < lines_of(listing@).len() - 1 && describes_controller(
                #[trigger] lines_of(listing@)[i],
                lines_of(listing@)[i + 1],
            ),
{
    let ls = lines(listing);
    let ghost all = lines_of(listing@);
    let n: usize = ls.len();
    assert(all.len() == n);
    let mut i: usize = 1;
    while i < n
        invariant
            all == texts(ls@),
            all == lines_of(listing@),
            all.len() == n,
            n == ls@.len(),
            1 <= i,
            i <= n || n == 0,
            forall|k: int| 0 <= k < i - 1 ==> !describes_controller(#[trigger] all[k], all[k + 1]),
        decreases n - i,
    {
        proof {
            assert(all[i - 1] == ls@[i - 1]@);
            assert(all[i as int] == ls@[i as int]@);
        }
        let page = read_property(ls[i].as_str(), "\"PrimaryUsagePage\" =");
        let found = match read_property(ls[i - 1].as_str(), "\"PrimaryUsage\" =") {
            Some(u) => (u == 4 || u == 5) && match page {
                Some(p) => p == 1,
                None => false,
            },
            None => false,
        };
        if found {
            assert(describes_controller(all[i - 1], all[i - 1 + 1]));
            return true;
        }
        i += 1;
    }
    false
}

/// The emulator's program is a native one, which brings no ROMs of its own.
pub open spec fn is_native_program(program: Seq<char>) -> bool {
    name_in(program) == Some("x64"@) || name_in(program) == Some("x64sc"@)
}

pub fn is_native(program: &str) -> (r: bool)
    ensures
        r == is_native_program(program@),
{
    match file_name(program) {
        Some(n) => same(n.as_str(), "x64") || same(n.as_str(), "x64sc"),
        None => false,
    }
}

/// What is said when a game starts.
pub open spec fn launch_line(game: Seq<char>, program: Seq<char>) -> Seq<char> {
    "LOAD\"*\",8,1 : RUN   ->  "@ + (match name_in(game) {
        Some(n) => n,
        None => Seq::empty(),
    }) + "   ["@ + (match name_in(program) {
        Some(n) => n,
        None => program,
    }) + "]"@
}

pub fn launch_note(game: &str, program: &str) -> (r: String)
    ensures
        r@ == launch_line(game@, program@),
{
    let mut s = "LOAD\"*\",8,1 : RUN   ->  ".to_string();
    match file_name(game) {
        Some(n) => s.append(n.as_str()),
        None => s.append(""),
    }
    s.append("   [");
    match file_name(program) {
        Some(n) => s.append(n.as_str()),
        None => s.append(program),
    }
    s.append("]");
    proof {
        reveal_strlit("");
        assert(""@ =~= Seq::empty());
    }
    s
}

// ---- laws ------------------------------------------------------------------------------------------------------

/// An emulator is found whenever there is one, and one that needs a licence is used
/// only when no other is there.
pub proof fn law_free_emulators_first(e: Emulators)
    requires
        e.setting is None,
    ensures
        (emulator_command(e) is Ok) == (e.x64sc || e.x64 || e.flatpak || e.wine),
        emulator_command(e) == Ok::<Seq<Seq<char>>, NoEmulator>(seq!["wine"@, wine_x64_path()])
            ==> !e.x64sc && !e.x64 && !e.flatpak,
{
    if e.x64sc {
        assert(seq!["x64sc"@].len() == 1);
    }
    if e.x64 {
        assert(seq!["x64"@].len() == 1);
    }
    assert(seq!["wine"@, wine_x64_path()].len() == 2);
    assert(seq!["flatpak"@, "run"@, "--command=x64sc"@, "net.sf.VICE"@].len() == 4);
}

/// No sound option is given that the emulator does not know.
pub proof fn law_sound_options_are_known(
    help: Seq<char>,
    cli: Option<bool>,
    setting: Option<Seq<char>>,
    volume: Option<Seq<char>>,
)
    ensures
        sound_options(help, cli, setting, volume).len() > 0 ==> has_part(help, "-drivesound"@),
        sound_options(help, cli, setting, volume).len() > 1 ==> has_part(
            help,
            "-drivesoundvolume"@,
        ),
{
}

/// No drive option is given that the emulator does not list.
pub proof fn law_drive_options_are_listed(help: Seq<char>, virtual_drive: bool, i: int)
    requires
        0 <= i < drive_options(help, virtual_drive).len(),
    ensures
        has_part(help, drive_options(help, virtual_drive)[i]),
{
}

// ---- what a launch asks of the emulator -------------------------------------------------------------------------

/// No setting's own text is this word.
pub open spec fn no_setting_says(l: Launch, w: Seq<char>) -> bool {
    &&& opt_text(l.volume) != Some(w)
    &&& opt_text(l.config) != Some(w)
    &&& opt_text(l.device) != Some(w)
}

proof fn lemma_in_sum(a: Seq<Seq<char>>, b: Seq<Seq<char>>, w: Seq<char>)
    ensures
        (a + b).contains(w) <==> a.contains(w) || b.contains(w),
{
    let s = a + b;
    if s.contains(w) {
        let i = s.index_of(w);
        if i < a.len() {
            assert(a[i] == w);
        } else {
            assert(b[i - a.len()] == w);
        }
    }
    if a.contains(w) {
        assert(s[a.index_of(w)] == w);
    }
    if b.contains(w) {
        assert(s[a.len() + b.index_of(w)] == w);
    }
}

proof fn lemma_option_texts()
    ensures
        "-VICIIfull"@.len() == 10,
        "-VICIIfull"@[1] == 'V',
        "-autostart-warp"@.len() == 15,
        "-autostart-warp"@[1] == 'a',
        "-autostart-warp"@[11] == 'w',
        "-virtualdev8"@.len() == 12,
        "-trapdevice8"@.len() == 12,
        "+drive8truedrive"@.len() == 16,
        "-drive8truedrive"@.len() == 16,
        "-autostart-handle-tde"@.len() == 21,
        "-truedrive"@.len() == 10,
        "-truedrive"@[1] == 't',
        "-drivesound"@.len() == 11,
        "-drivesoundvolume"@.len() == 17,
        "2000"@.len() == 4,
        "-config"@.len() == 7,
        "-joydev1"@.len() == 8,
        "-joydev2"@.len() == 8,
        "4"@.len() == 1,
        "3"@.len() == 1,
        "2"@.len() == 1,
        "1"@.len() == 1,
        "-verbose"@.len() == 8,
        "-logfile"@.len() == 8,
        "-autostart"@.len() == 10,
        "-autostart"@[1] == 'a',
{
    reveal_strlit("-VICIIfull");
    reveal_strlit("-autostart-warp");
    reveal_strlit("-virtualdev8");
    reveal_strlit("-trapdevice8");
    reveal_strlit("+drive8truedrive");
    reveal_strlit("-drive8truedrive");
    reveal_strlit("-autostart-handle-tde");
    reveal_strlit("-truedrive");
    reveal_strlit("-drivesound");
    reveal_strlit("-drivesoundvolume");
    reveal_strlit("2000");
    reveal_strlit("-config");
    reveal_strlit("-joydev1");
    reveal_strlit("-joydev2");
    reveal_strlit("4");
    reveal_strlit("3");
    reveal_strlit("2");
    reveal_strlit("1");
    reveal_strlit("-verbose");
    reveal_strlit("-logfile");
    reveal_strlit("-autostart");
}

proof fn lemma_options_without(l: Launch, virtual_drive: bool, a: Asked, w: Seq<char>)
    requires
        w == "-VICIIfull"@ || w == "-autostart-warp"@,
        no_setting_says(l, w),
    ensures
        !drive_options(l.help@, virtual_drive).contains(w),
        !sound_options(l.help@, a.drive_sound, opt_text(l.sound), opt_text(l.volume)).contains(w),
        !port_options(l.joystick && !a.keyboard, opt_text(l.config), opt_text(l.device)).contains(w),
{
    lemma_option_texts();
    let d = drive_options(l.help@, virtual_drive);
    let s = sound_options(l.help@, a.drive_sound, opt_text(l.sound), opt_text(l.volume));
    let p = port_options(l.joystick && !a.keyboard, opt_text(l.config), opt_text(l.device));
    assert forall|i: int| 0 <= i < d.len() implies d[i] != w by {
        assert(i == 0 || i == 1 || i == 2);
    }
    assert forall|i: int| 0 <= i < s.len() implies s[i] != w by {
        assert(i == 0 || i == 1 || i == 2);
    }
    assert forall|i: int| 0 <= i < p.len() implies p[i] != w by {
        assert(i == 0 || i == 1 || i == 2 || i == 3 || i == 4 || i == 5);
    }
}

/// The emulator is asked for the whole screen exactly where that was asked for, and for a
/// fast load exactly where that was.
pub proof fn law_screen_and_speed_are_as_asked(l: Launch, virtual_drive: bool, a: Asked)
    ensures
        no_setting_says(l, "-VICIIfull"@) ==> (play_options(l, virtual_drive, a).contains(
            "-VICIIfull"@,
        ) <==> a.fullscreen),
        no_setting_says(l, "-autostart-warp"@) ==> (play_options(l, virtual_drive, a).contains(
            "-autostart-warp"@,
        ) <==> a.warp),
{
    lemma_option_texts();
    let d = drive_options(l.help@, virtual_drive);
    let s = sound_options(l.help@, a.drive_sound, opt_text(l.sound), opt_text(l.volume));
    let warp = if a.warp {
        seq!["-autostart-warp"@]
    } else {
        Seq::empty()
    };
    let full = if a.fullscreen {
        seq!["-VICIIfull"@]
    } else {
        Seq::empty()
    };
    let p = port_options(l.joystick && !a.keyboard, opt_text(l.config), opt_text(l.device));
    assert(play_options(l, virtual_drive, a) == d + s + warp + full + p);
    if no_setting_says(l, "-VICIIfull"@) {
        let w = "-VICIIfull"@;
        lemma_options_without(l, virtual_drive, a, w);
        lemma_in_sum(d, s, w);
        lemma_in_sum(d + s, warp, w);
        lemma_in_sum(d + s + warp, full, w);
        lemma_in_sum(d + s + warp + full, p, w);
        if a.fullscreen {
            assert(full[0] == w);
        }
    }
    if no_setting_says(l, "-autostart-warp"@) {
        let w = "-autostart-warp"@;
        lemma_options_without(l, virtual_drive, a, w);
        lemma_in_sum(d, s, w);
        lemma_in_sum(d + s, warp, w);
        lemma_in_sum(d + s + warp, full, w);
        lemma_in_sum(d + s + warp + full, p, w);
        if a.warp {
            assert(warp[0] == w);
        }
    }
}

/// The same of the whole command, where neither the emulator's own words, the log nor the
/// game is that word; and the command ends by starting the game.
pub proof fn law_commands_do_as_asked(
    emulator: Seq<Seq<char>>,
    l: Launch,
    a: Asked,
    game: Seq<char>,
)
    ensures
        ({
            let c = launch_command(emulator, l, a, game);
            let free = |w: Seq<char>|
                no_setting_says(l, w) && !emulator.contains(w) && game != w && opt_text(l.log)
                    != Some(w) && l.usual_log@ != w;
            &&& free("-VICIIfull"@) ==> (c.contains("-VICIIfull"@) <==> a.fullscreen)
            &&& free("-autostart-warp"@) ==> (c.contains("-autostart-warp"@) <==> a.warp)
            &&& c.len() >= emulator.len() + 2
            &&& c.take(emulator.len() as int) == emulator
            &&& c[c.len() - 2] == "-autostart"@
            &&& c.last() == game
        }),
{
    lemma_option_texts();
    let c = launch_command(emulator, l, a, game);
    let o = play_options(l, l.virtual_drive, a);
    let g = log_options(opt_text(l.log), l.usual_log@);
    let end = seq!["-autostart"@, game];
    law_screen_and_speed_are_as_asked(l, l.virtual_drive, a);
    assert(c.take(emulator.len() as int) =~= emulator);
    assert forall|w: Seq<char>|
        (w == "-VICIIfull"@ || w == "-autostart-warp"@) && no_setting_says(l, w)
            && !emulator.contains(w) && game != w && opt_text(l.log) != Some(w) && l.usual_log@ != w
        implies (#[trigger] c.contains(w) <==> o.contains(w)) by {
        assert forall|i: int| 0 <= i < g.len() implies g[i] != w by {
            assert(i == 0 || i == 1 || i == 2);
        }
        assert(!g.contains(w));
        assert forall|i: int| 0 <= i < end.len() implies end[i] != w by {
            assert(i == 0 || i == 1);
        }
        assert(!end.contains(w));
        lemma_in_sum(emulator, o, w);
        lemma_in_sum(emulator + o, g, w);
        lemma_in_sum(emulator + o + g, end, w);
    }
}

/// With the command line's last word on the sound of the drive, else the setting's, else with
/// sound: the emulator is asked for it where it is wanted and the help text lists it, and for
/// a volume where it lists that too.
pub proof fn law_sound_is_as_asked(
    help: Seq<char>,
    cli: Option<bool>,
    setting: Option<Seq<char>>,
    volume: Option<Seq<char>>,
)
    ensures
        ({
            let o = sound_options(help, cli, setting, volume);
            let off = cli == Some(false) || (cli is None && setting is Some && ({
                let t = trimmed(setting->0);
                t.len() == 0 || t == "0"@ || t == "false"@ || t == "no"@
            }));
            &&& off || !has_part(help, "-drivesound"@) ==> o.len() == 0
            &&& !off && has_part(help, "-drivesound"@) ==> o.len() >= 1 && o[0] == "-drivesound"@
            &&& !off && has_part(help, "-drivesound"@) && !has_part(help, "-drivesoundvolume"@)
                ==> o.len() == 1
            &&& !off && has_part(help, "-drivesound"@) && has_part(help, "-drivesoundvolume"@)
                ==> o.len() == 3 && o[1] == "-drivesoundvolume"@ && (volume is None ==> o[2]
                == "2000"@) && (volume matches Some(v) && number_of(trimmed(v)) is None ==> o[2]
                == "2000"@) && (volume matches Some(v) && (number_of(trimmed(v)) matches Some(n) && 0
                <= n <= u32::MAX && trimmed(v)[0] != '-') ==> o[2] == volume->0)
        }),
{
}

/// The drive is the exact one unless the virtual one is asked for, in the words that the help
/// text lists.
pub proof fn law_the_drive_is_as_asked(help: Seq<char>)
    ensures
        has_part(help, "-virtualdev8"@) ==> drive_options(help, true) == seq!["-virtualdev8"@],
        !has_part(help, "-virtualdev8"@) && has_part(help, "-trapdevice8"@) ==> drive_options(
            help,
            true,
        )[0] == "-trapdevice8"@ && (drive_options(help, true).contains("+drive8truedrive"@) <==> has_part(
            help,
            "+drive8truedrive"@,
        )),
        !has_part(help, "-virtualdev8"@) && !has_part(help, "-trapdevice8"@) ==> drive_options(
            help,
            true,
        ).len() == 0,
        has_part(help, "-drive8truedrive"@) ==> drive_options(help, false)[0]
            == "-drive8truedrive"@ && (drive_options(help, false).contains("-autostart-handle-tde"@)
            <==> has_part(help, "-autostart-handle-tde"@)) && (drive_options(help, false).contains(
            "-trapdevice8"@,
        ) <==> has_part(help, "-autostart-handle-tde"@) && has_part(help, "-trapdevice8"@)),
        !has_part(help, "-drive8truedrive"@) && has_part(help, "-truedrive"@) ==> drive_options(
            help,
            false,
        ) == seq!["-truedrive"@],
        !has_part(help, "-drive8truedrive"@) && !has_part(help, "-truedrive"@) ==> drive_options(
            help,
            false,
        ).len() == 0,
{
    lemma_option_texts();
    reveal_strlit("-trapdevice8");
    reveal_strlit("+drive8truedrive");
    reveal_strlit("-drive8truedrive");
    let v = drive_options(help, true);
    let d = drive_options(help, false);
    assert("+drive8truedrive"@[0] == '+' && "-drive8truedrive"@[0] == '-');
    if !has_part(help, "-virtualdev8"@) && has_part(help, "-trapdevice8"@) {
        if has_part(help, "+drive8truedrive"@) {
            assert(v[1] == "+drive8truedrive"@);
        } else {
            assert forall|i: int| 0 <= i < v.len() implies v[i] != "+drive8truedrive"@ by {}
        }
    }
    if has_part(help, "-drive8truedrive"@) {
        if has_part(help, "-autostart-handle-tde"@) {
            assert(d[d.len() - 1] == "-autostart-handle-tde"@);
            if has_part(help, "-trapdevice8"@) {
                assert(d[1] == "-trapdevice8"@);
            } else {
                assert forall|i: int| 0 <= i < d.len() implies d[i] != "-trapdevice8"@ by {}
            }
        } else {
            assert forall|i: int|
                0 <= i < d.len() implies d[i] != "-autostart-handle-tde"@ && d[i]
                != "-trapdevice8"@ by {}
        }
    }
}

/// What the first player plays with is on port 2: the joystick where one is used, else the
/// first set of keys, else the number pad; what the second plays with is on port 1, and is
/// never what the first has.
pub proof fn law_players_have_their_ports(
    joystick: bool,
    config: Option<Seq<char>>,
    device: Option<Seq<char>>,
)
    ensures
        ({
            let o = port_options(joystick, config, device);
            let k = if config is Some {
                2int
            } else {
                0
            };
            &&& config matches Some(path) ==> o[0] == "-config"@ && o[1] == path
            &&& o.len() >= k + 2
            &&& o[k] == "-joydev2"@
            &&& joystick && (device is None || trimmed(device->0).len() == 0) ==> o[k + 1] == "4"@
            &&& joystick && device is Some && trimmed(device->0).len() > 0 ==> o[k + 1] == device->0
            &&& joystick ==> o.len() == k + 4 && o[k + 2] == "-joydev1"@ && o[k + 3] == "2"@
            &&& !joystick && config is Some ==> o.len() == k + 4 && o[k + 1] == "2"@ && o[k + 2]
                == "-joydev1"@ && o[k + 3] == "3"@
            &&& !joystick && config is None ==> o.len() == k + 2 && o[k + 1] == "1"@
        }),
{
}

/// Without a joystick, or with the keyboard asked for, the options are those of two players
/// at the keyboard.
pub proof fn law_the_keyboard_can_be_chosen(l: Launch, virtual_drive: bool, a: Asked)
    ensures
        a.keyboard ==> play_options(l, virtual_drive, a) == play_options(
            Launch { joystick: false, ..l },
            virtual_drive,
            a,
        ),
        !a.keyboard ==> play_options(l, virtual_drive, a).skip(
            play_options(l, virtual_drive, a).len() - port_options(
                l.joystick,
                opt_text(l.config),
                opt_text(l.device),
            ).len(),
        ) == port_options(l.joystick, opt_text(l.config), opt_text(l.device)),
{
    let p = port_options(l.joystick, opt_text(l.config), opt_text(l.device));
    if !a.keyboard {
        let all = play_options(l, virtual_drive, a);
        assert(all.skip(all.len() - p.len()) =~= p);
    }
}

/// A log is written where it is asked for: to the usual file for "1" or "true", else to the
/// file that is named.
pub proof fn law_logs_are_as_asked(setting: Option<Seq<char>>, usual: Seq<char>)
    ensures
        setting is None ==> log_options(setting, usual).len() == 0,
        setting is Some ==> log_options(setting, usual).len() == 3 && log_options(setting, usual)[0]
            == "-verbose"@ && log_options(setting, usual)[1] == "-logfile"@,
        setting == Some("1"@) || setting == Some("true"@) || setting == Some("TRUE"@) ==> log_options(
            setting,
            usual,
        )[2] == usual,
        setting is Some && setting->0.len() > 4 ==> log_options(setting, usual)[2] == setting->0,
{
    reveal_strlit("1");
    reveal_strlit("true");
    reveal_strlit("TRUE");
    assert(ascii_lowered("true"@) =~= "true"@);
    assert(ascii_lowered("TRUE"@) =~= "true"@) by {
        assert(('T' as u32 + 32) as char == 't');
        assert(('R' as u32 + 32) as char == 'r');
        assert(('U' as u32 + 32) as char == 'u');
        assert(('E' as u32 + 32) as char == 'e');
    }
}

// ---- the command line -------------------------------------------------------------------------------------------

/// What is not said otherwise: a fast load on the whole screen, with the joystick that is
/// there, and a game to start.
pub proof fn law_defaults_of_a_launch()
    ensures
        asked_first().warp,
        asked_first().fullscreen,
        !asked_first().list_only,
        !asked_first().keyboard,
        asked_first().drive_sound is None,
        asked_first().words.len() == 0,
{
}

/// Each option of the command line changes the one thing that it names, wherever it stands,
/// and what follows is read with that.
pub proof fn law_options_are_read(a: Asked, argv: Seq<Seq<char>>, i: int)
    requires
        0 <= i < argv.len(),
    ensures
        ({
            let o = argv[i];
            let r = a.with_args(argv, i);
            &&& o == "-w"@ || o == "--warp"@ ==> r == (Asked { warp: true, ..a }).with_args(argv, i + 1)
            &&& o == "-W"@ || o == "--no-warp"@ || o == "-r"@ || o == "--real"@ ==> r == (Asked {
                warp: false,
                ..a
            }).with_args(argv, i + 1)
            &&& o == "-f"@ || o == "--fullscreen"@ ==> r == (Asked { fullscreen: true, ..a }).with_args(
                argv,
                i + 1,
            )
            &&& o == "--windowed"@ ==> r == (Asked { fullscreen: false, ..a }).with_args(argv, i + 1)
            &&& o == "-k"@ || o == "--keyboard"@ ==> r == (Asked { keyboard: true, ..a }).with_args(
                argv,
                i + 1,
            )
            &&& o == "--drive-sound"@ ==> r == (Asked { drive_sound: Some(true), ..a }).with_args(
                argv,
                i + 1,
            )
            &&& o == "--no-drive-sound"@ ==> r == (Asked { drive_sound: Some(false), ..a }).with_args(
                argv,
                i + 1,
            )
            &&& o == "-l"@ || o == "--list"@ ==> r == (Asked { list_only: true, ..a }).with_args(
                argv,
                i + 1,
            )
            &&& o == "-h"@ || o == "--help"@ ==> r == Command::Help
        }),
{
    reveal_strlit("-w");
    reveal_strlit("--warp");
    reveal_strlit("-W");
    reveal_strlit("--no-warp");
    reveal_strlit("-r");
    reveal_strlit("--real");
    reveal_strlit("-f");
    reveal_strlit("--fullscreen");
    reveal_strlit("--windowed");
    reveal_strlit("-k");
    reveal_strlit("--keyboard");
    reveal_strlit("--drive-sound");
    reveal_strlit("--no-drive-sound");
    reveal_strlit("-l");
    reveal_strlit("--list");
    reveal_strlit("-h");
    reveal_strlit("--help");
    reveal_strlit("--");
    assert("-w"@[1] == 'w' && "-W"@[1] == 'W' && "-r"@[1] == 'r' && "-f"@[1] == 'f' && "-k"@[1] == 'k'
        && "-l"@[1] == 'l' && "-h"@[1] == 'h' && "--"@[1] == '-');
    assert("--warp"@.len() == 6 && "--real"@.len() == 6 && "--list"@.len() == 6 && "--help"@.len() == 6);
    assert("--warp"@[2] == 'w' && "--real"@[2] == 'r' && "--list"@[2] == 'l' && "--help"@[2] == 'h');
    assert("--no-warp"@.len() == 9 && "--fullscreen"@.len() == 12 && "--windowed"@.len() == 10
        && "--keyboard"@.len() == 10 && "--drive-sound"@.len() == 13 && "--no-drive-sound"@.len()
        == 16);
    assert("--windowed"@[2] == 'w' && "--keyboard"@[2] == 'k');
}

/// Words that are no options make up the query, in their order; all that follows "--" does;
/// and without a word nothing is started.
pub proof fn law_words_are_the_query(a: Asked, argv: Seq<Seq<char>>, i: int)
    ensures
        i == argv.len() && a.words.len() == 0 ==> a.with_args(argv, i) == Command::NothingGiven,
        i == argv.len() && a.words.len() > 0 ==> a.with_args(argv, i) == Command::Run(a),
        0 <= i < argv.len() && argv[i].len() > 0 && argv[i][0] != '-' ==> a.with_args(argv, i) == (
        Asked { words: a.words.push(argv[i]), ..a }).with_args(argv, i + 1),
        0 <= i < argv.len() && argv[i] == "--"@ && a.words.len() + argv.len() > i + 1 ==> a.with_args(
            argv,
            i,
        ) == Command::Run(Asked { words: a.words + argv.skip(i + 1), ..a }),
{
    reveal_strlit("-w");
    reveal_strlit("--warp");
    reveal_strlit("-W");
    reveal_strlit("--no-warp");
    reveal_strlit("-r");
    reveal_strlit("--real");
    reveal_strlit("-f");
    reveal_strlit("--fullscreen");
    reveal_strlit("--windowed");
    reveal_strlit("-k");
    reveal_strlit("--keyboard");
    reveal_strlit("--drive-sound");
    reveal_strlit("--no-drive-sound");
    reveal_strlit("-l");
    reveal_strlit("--list");
    reveal_strlit("-h");
    reveal_strlit("--help");
    reveal_strlit("--");
    reveal_strlit("-");
    if 0 <= i < argv.len() && argv[i] == "--"@ {
        assert("--"@.len() == 2 && "--"@[1] == '-');
        assert("-h"@[1] == 'h' && "--help"@.len() == 6);
    }
    if 0 <= i < argv.len() && argv[i].len() > 0 && argv[i][0] != '-' {
        assert("-w"@[0] == '-' && "--warp"@[0] == '-' && "-W"@[0] == '-' && "--no-warp"@[0] == '-'
            && "-r"@[0] == '-' && "--real"@[0] == '-' && "-f"@[0] == '-' && "--fullscreen"@[0] == '-'
            && "--windowed"@[0] == '-' && "-k"@[0] == '-' && "--keyboard"@[0] == '-'
            && "--drive-sound"@[0] == '-' && "--no-drive-sound"@[0] == '-' && "-l"@[0] == '-'
            && "--list"@[0] == '-' && "-h"@[0] == '-' && "--help"@[0] == '-' && "--"@[0] == '-');
        assert(!begins(argv[i], "-"@)) by {
            if begins(argv[i], "-"@) {
                assert(argv[i].take(1)[0] == '-');
            }
        }
    }
}

/// The emulator is the one of the setting; else the native ones come first, the exact one
/// before the fast one, then the flatpak, and the licensed one last.
pub proof fn law_emulators_come_in_order(e: Emulators)
    requires
        e.setting is None,
    ensures
        e.x64sc ==> emulator_command(e) == Ok::<Seq<Seq<char>>, NoEmulator>(seq!["x64sc"@]),
        !e.x64sc && e.x64 ==> emulator_command(e) == Ok::<Seq<Seq<char>>, NoEmulator>(seq!["x64"@]),
        !e.x64sc && !e.x64 && e.flatpak ==> (emulator_command(e) matches Ok(c) && c[0] == "flatpak"@
            && c[1] == "run"@ && c.last() == "net.sf.VICE"@),
        !e.x64sc && !e.x64 && !e.flatpak && e.wine ==> (emulator_command(e) matches Ok(c) && c.len()
            == 2 && c[0] == "wine"@ && c[1] == wine_x64_path()),
{
}

/// A controller is there as the setting says; without one, where a device is called "js" and
/// a number, or one's name has "joystick" or "gamepad" in it.
pub proof fn law_controllers_are_found(
    v: Seq<char>,
    devices: Seq<Seq<char>>,
    by_name: Seq<Seq<char>>,
    i: int,
)
    ensures
        controller_there(Some(v), devices, by_name) == !(trimmed(v).len() == 0 || trimmed(v) == "0"@
            || trimmed(v) == "false"@ || trimmed(v) == "no"@),
        0 <= i < devices.len() && devices[i] == "js0"@ ==> controller_there(None, devices, by_name),
        0 <= i < by_name.len() && has_part(ascii_lowered(by_name[i]), "joystick"@) ==> controller_there(
            None,
            devices,
            by_name,
        ),
        0 <= i < by_name.len() && has_part(ascii_lowered(by_name[i]), "gamepad"@) ==> controller_there(
            None,
            devices,
            by_name,
        ),
        devices.len() == 0 && by_name.len() == 0 ==> !controller_there(None, devices, by_name),
{
    if 0 <= i < devices.len() && devices[i] == "js0"@ {
        reveal_strlit("js0");
        reveal_strlit("js");
        assert("js0"@.take(2) =~= "js"@);
        assert("js0"@.skip(2) =~= seq!['0']);
        crate::text::law_numbers_come_back(0);
        assert(crate::text::number_text(0) =~= seq!['0']);
        assert(is_joystick_name(devices[i]));
    }
}

/// A device is a controller when its usage is that of a joystick or of a game pad, on the page
/// of desktop devices.
pub proof fn law_controllers_in_the_listing(a: Seq<char>, b: Seq<char>)
    ensures
        ({
            let usage = property_value(a, "\"PrimaryUsage\" ="@);
            let page = property_value(b, "\"PrimaryUsagePage\" ="@);
            &&& usage == Some(4int) && page == Some(1int) ==> describes_controller(a, b)
            &&& usage == Some(5int) && page == Some(1int) ==> describes_controller(a, b)
            &&& page != Some(1int) ==> !describes_controller(a, b)
            &&& usage is None ==> !describes_controller(a, b)
            &&& usage is Some && usage->0 != 4 && usage->0 != 5 ==> !describes_controller(a, b)
        }),
        !has_part(a, "\"PrimaryUsage\" ="@) ==> property_value(a, "\"PrimaryUsage\" ="@) is None,
{
}

/// A file can be started by its ending: the images of disks, of tapes and of cartridges, and
/// programs.
pub proof fn law_startable_files(name: Seq<char>)
    ensures
        is_startable(name) <==> exists|e: Seq<char>| #[trigger]
            ends(lowered(name), e) && (e == ".d64"@ || e == ".d71"@ || e == ".d81"@ || e == ".g64"@ || e
                == ".x64"@ || e == ".nib"@ || e == ".p00"@ || e == ".prg"@ || e == ".t64"@ || e == ".tap"@ || e
                == ".crt"@),
{
}

/// Only the native emulators need ROMs of their own.
pub proof fn law_native_emulators(dir: Seq<char>)
    ensures
        is_native_program("x64"@),
        is_native_program("x64sc"@),
        !is_native_program("flatpak"@),
        !is_native_program("wine"@),
{
    reveal_strlit("x64");
    reveal_strlit("x64sc");
    reveal_strlit("flatpak");
    reveal_strlit("wine");
    reveal_strlit(".");
    reveal_strlit("..");
    assert("."@.len() == 1 && ".."@.len() == 2);
    assert("x64"@.len() == 3 && "x64sc"@.len() == 5 && "flatpak"@.len() == 7 && "wine"@.len() == 4);
    crate::paths::law_names_follow_the_last_slash(dir, "x64"@);
    crate::paths::law_names_follow_the_last_slash(dir, "x64sc"@);
    crate::paths::law_names_follow_the_last_slash(dir, "flatpak"@);
    crate::paths::law_names_follow_the_last_slash(dir, "wine"@);
}

} // verus!
