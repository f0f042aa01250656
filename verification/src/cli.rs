//! The command line: which tool is meant, and what is asked of it.

use crate::run::add_text;
use crate::text::{begins, join, joined, number_of, opt_text, parse_u64, same, starts_with, texts};
use vstd::prelude::*;

verus! {

// ---- tools -----------------------------------------------------------------------------------------

/// A tool of the program.
#[derive(Clone, Copy, PartialEq, Eq, Structural, Debug)]
pub enum Tool {
    Run,
    Info,
    Disk,
    Get,
    Tosec,
    Index,
    Menu,
    Kiosk,
    Demos,
    Tunes,
}

/// The name that a tool can be called by on its own.
pub open spec fn tool_name_of(t: Tool) -> Seq<char> {
    match t {
        Tool::Run => "c64run"@,
        Tool::Info => "c64info"@,
        Tool::Disk => "c64disk"@,
        Tool::Get => "c64get"@,
        Tool::Tosec => "c64tosec"@,
        Tool::Index => "build_index"@,
        Tool::Menu => "c64menu"@,
        Tool::Kiosk => "c64kiosk"@,
        Tool::Demos => "c64demos"@,
        Tool::Tunes => "c64tunes"@,
    }
}

pub fn tool_name(t: Tool) -> (r: &'static str)
    ensures
        r@ == tool_name_of(t),
{
    match t {
        Tool::Run => "c64run",
        Tool::Info => "c64info",
        Tool::Disk => "c64disk",
        Tool::Get => "c64get",
        Tool::Tosec => "c64tosec",
        Tool::Index => "build_index",
        Tool::Menu => "c64menu",
        Tool::Kiosk => "c64kiosk",
        Tool::Demos => "c64demos",
        Tool::Tunes => "c64tunes",
    }
}

/// The tool with a name, where there is one.
pub open spec fn tool_named(name: Seq<char>) -> Option<Tool> {
    if name == "c64run"@ {
        Some(Tool::Run)
    } else if name == "c64info"@ {
        Some(Tool::Info)
    } else if name == "c64disk"@ {
        Some(Tool::Disk)
    } else if name == "c64get"@ {
        Some(Tool::Get)
    } else if name == "c64tosec"@ {
        Some(Tool::Tosec)
    } else if name == "build_index"@ {
        Some(Tool::Index)
    } else if name == "c64menu"@ {
        Some(Tool::Menu)
    } else if name == "c64kiosk"@ {
        Some(Tool::Kiosk)
    } else if name == "c64demos"@ {
        Some(Tool::Demos)
    } else if name == "c64tunes"@ {
        Some(Tool::Tunes)
    } else {
        None
    }
}

pub fn tool_by_name(name: &str) -> (r: Option<Tool>)
    ensures
        r == tool_named(name@),
{
    if same(name, "c64run") {
        Some(Tool::Run)
    } else if same(name, "c64info") {
        Some(Tool::Info)
    } else if same(name, "c64disk") {
        Some(Tool::Disk)
    } else if same(name, "c64get") {
        Some(Tool::Get)
    } else if same(name, "c64tosec") {
        Some(Tool::Tosec)
    } else if same(name, "build_index") {
        Some(Tool::Index)
    } else if same(name, "c64menu") {
        Some(Tool::Menu)
    } else if same(name, "c64kiosk") {
        Some(Tool::Kiosk)
    } else if same(name, "c64demos") {
        Some(Tool::Demos)
    } else if same(name, "c64tunes") {
        Some(Tool::Tunes)
    } else {
        None
    }
}

/// The tool that a subcommand stands for.
pub open spec fn subcommand(cmd: Seq<char>) -> Option<Tool> {
    if cmd == "menu"@ || cmd == "pick"@ || cmd == "browse"@ {
        Some(Tool::Menu)
    } else if cmd == "kiosk"@ || cmd == "grid"@ || cmd == "cards"@ {
        Some(Tool::Kiosk)
    } else if cmd == "play"@ || cmd == "run"@ || cmd == "launch"@ {
        Some(Tool::Run)
    } else if cmd == "info"@ || cmd == "details"@ {
        Some(Tool::Info)
    } else if cmd == "get"@ || cmd == "tape"@ {
        Some(Tool::Get)
    } else if cmd == "disk"@ {
        Some(Tool::Disk)
    } else if cmd == "tosec"@ || cmd == "browse-all"@ {
        Some(Tool::Tosec)
    } else if cmd == "demos"@ || cmd == "demoscene"@ || cmd == "scene"@ {
        Some(Tool::Demos)
    } else if cmd == "tunes"@ || cmd == "music"@ || cmd == "sid"@ || cmd == "jukebox"@ {
        Some(Tool::Tunes)
    } else if cmd == "index"@ || cmd == "build-index"@ {
        Some(Tool::Index)
    } else {
        None
    }
}

pub fn resolve_subcommand(cmd: &str) -> (r: Option<Tool>)
    ensures
        r == subcommand(cmd@),
{
    if same(cmd, "menu") || same(cmd, "pick") || same(cmd, "browse") {
        Some(Tool::Menu)
    } else if same(cmd, "kiosk") || same(cmd, "grid") || same(cmd, "cards") {
        Some(Tool::Kiosk)
    } else if same(cmd, "play") || same(cmd, "run") || same(cmd, "launch") {
        Some(Tool::Run)
    } else if same(cmd, "info") || same(cmd, "details") {
        Some(Tool::Info)
    } else if same(cmd, "get") || same(cmd, "tape") {
        Some(Tool::Get)
    } else if same(cmd, "disk") {
        Some(Tool::Disk)
    } else if same(cmd, "tosec") || same(cmd, "browse-all") {
        Some(Tool::Tosec)
    } else if same(cmd, "demos") || same(cmd, "demoscene") || same(cmd, "scene") {
        Some(Tool::Demos)
    } else if same(cmd, "tunes") || same(cmd, "music") || same(cmd, "sid") || same(cmd, "jukebox") {
        Some(Tool::Tunes)
    } else if same(cmd, "index") || same(cmd, "build-index") {
        Some(Tool::Index)
    } else {
        None
    }
}

/// The names that lead to the program: those of the tools that can be called on their own.
pub open spec fn link_names_of() -> Seq<Seq<char>> {
    seq![
        "c64run"@,
        "c64menu"@,
        "c64kiosk"@,
        "c64info"@,
        "c64get"@,
        "c64disk"@,
        "c64tosec"@,
        "c64demos"@,
        "c64tunes"@,
    ]
}

pub fn link_names() -> (r: Vec<String>)
    ensures
        texts(r@) == link_names_of(),
{
    let mut v: Vec<String> = Vec::new();
    assert(texts(v@) =~= Seq::empty());
    add_text(&mut v, "c64run");
    add_text(&mut v, "c64menu");
    add_text(&mut v, "c64kiosk");
    add_text(&mut v, "c64info");
    add_text(&mut v, "c64get");
    add_text(&mut v, "c64disk");
    add_text(&mut v, "c64tosec");
    add_text(&mut v, "c64demos");
    add_text(&mut v, "c64tunes");
    assert(texts(v@) =~= link_names_of());
    v
}

/// What the program is called for.
#[derive(Clone, Copy, PartialEq, Eq, Structural, Debug)]
pub enum Call {
    /// A tool, with the arguments from this place on.
    Tool(Tool, usize),
    /// A tool that there is not, by the program's name.
    NoSuchTool,
    Help,
    /// To make the links.
    Links,
    /// To try a part of the library out.
    Norm,
    Cover,
    Disk,
    Sid,
    /// A command that there is not.
    UnknownCommand,
}

/// What the program is called for, by its own name and its arguments. Without arguments it
/// is the kiosk.
pub open spec fn call_of(prog: Seq<char>, args: Seq<Seq<char>>) -> Call {
    let cmd = if args.len() > 0 {
        args[0]
    } else {
        "kiosk"@
    };
    if begins(prog, "c64"@) {
        match tool_named(prog) {
            Some(t) => Call::Tool(t, 0),
            None => Call::NoSuchTool,
        }
    } else if cmd == "_norm"@ {
        Call::Norm
    } else if cmd == "_cover"@ {
        Call::Cover
    } else if cmd == "_disk"@ {
        Call::Disk
    } else if cmd == "_sid"@ {
        Call::Sid
    } else if cmd == "-h"@ || cmd == "--help"@ || cmd == "help"@ {
        Call::Help
    } else if cmd == "install-links"@ {
        Call::Links
    } else {
        match subcommand(cmd) {
            Some(t) => Call::Tool(t, 1),
            None => Call::UnknownCommand,
        }
    }
}

pub fn dispatch(prog: &str, args: &Vec<String>) -> (r: Call)
    ensures
        r == call_of(prog@, texts(args@)),
{
    let ghost all = texts(args@);
    assert(all.len() == args@.len());
    if starts_with(prog, "c64") {
        return match tool_by_name(prog) {
            Some(t) => Call::Tool(t, 0),
            None => Call::NoSuchTool,
        };
    }
    let cmd: &str = if args.len() > 0 {
        assert(all[0] == args@[0]@);
        args[0].as_str()
    } else {
        "kiosk"
    };
    if same(cmd, "_norm") {
        Call::Norm
    } else if same(cmd, "_cover") {
        Call::Cover
    } else if same(cmd, "_disk") {
        Call::Disk
    } else if same(cmd, "_sid") {
        Call::Sid
    } else if same(cmd, "-h") || same(cmd, "--help") || same(cmd, "help") {
        Call::Help
    } else if same(cmd, "install-links") {
        Call::Links
    } else {
        match resolve_subcommand(cmd) {
            Some(t) => Call::Tool(t, 1),
            None => Call::UnknownCommand,
        }
    }
}

// ---- how reading a command line ends ---------------------------------------------------------------

/// How reading a command line ends.
#[derive(Debug)]
pub enum End {
    /// All was read.
    Go,
    Help,
    /// The index of the archive is to be built, whatever else was to come.
    BuildIndex,
    /// There is no such option.
    Unknown(String),
}

/// How reading a command line ends.
pub enum Ending {
    Go,
    Help,
    BuildIndex,
    Unknown(Seq<char>),
}

impl View for End {
    type V = Ending;

    open spec fn view(&self) -> Ending {
        match *self {
            End::Go => Ending::Go,
            End::Help => Ending::Help,
            End::BuildIndex => Ending::BuildIndex,
            End::Unknown(s) => Ending::Unknown(s@),
        }
    }
}

/// The text at a place of a list, where there is one.
pub open spec fn text_at(argv: Seq<Seq<char>>, i: int) -> Option<Seq<char>> {
    if 0 <= i < argv.len() {
        Some(argv[i])
    } else {
        None
    }
}

fn arg_at(argv: &Vec<String>, i: usize) -> (r: Option<String>)
    ensures
        opt_text(r) == text_at(texts(argv@), i as int),
{
    if i < argv.len() {
        Some(argv[i].clone())
    } else {
        None
    }
}

// ---- browsers ------------------------------------------------------------------------------------------

/// What is asked of a browser.
#[derive(Debug)]
pub struct BrowseArgs {
    /// Options that are handed on when something is launched.
    pub runopts: Vec<String>,
    pub refresh: bool,
    pub radio: bool,
    pub limit: usize,
}

/// What is asked of a browser.
#[verifier::ext_equal]
pub struct Browse {
    pub runopts: Seq<Seq<char>>,
    pub refresh: bool,
    pub radio: bool,
    pub limit: usize,
}

impl View for BrowseArgs {
    type V = Browse;

    open spec fn view(&self) -> Browse {
        Browse {
            runopts: texts(self.runopts@),
            refresh: self.refresh,
            radio: self.radio,
            limit: self.limit,
        }
    }
}

/// The browsers that launch something with options.
pub open spec fn takes_run_options(t: Tool) -> bool {
    t == Tool::Menu || t == Tool::Kiosk || t == Tool::Demos || t == Tool::Tosec
}

/// The option that is handed on for one that was given.
pub open spec fn run_option(a: Seq<char>) -> Option<Seq<char>> {
    if a == "-w"@ || a == "--warp"@ {
        Some("-w"@)
    } else if a == "-f"@ || a == "--fullscreen"@ {
        Some("-f"@)
    } else if a == "-r"@ || a == "--real"@ {
        Some("-r"@)
    } else {
        None
    }
}

fn find_run_option(a: &str) -> (r: Option<&'static str>)
    ensures
        match r {
            Some(o) => run_option(a@) == Some(o@),
            None => run_option(a@) is None,
        },
{
    if same(a, "-w") || same(a, "--warp") {
        Some("-w")
    } else if same(a, "-f") || same(a, "--fullscreen") {
        Some("-f")
    } else if same(a, "-r") || same(a, "--real") {
        Some("-r")
    } else {
        None
    }
}

/// What a number on the command line says; `usual` where it says none.
pub open spec fn limit_of(s: Option<Seq<char>>, usual: usize) -> usize {
    match s {
        Some(t) => match number_of(t) {
            Some(n) if n <= usize::MAX && t[0] != '-' => n as usize,
            _ => usual,
        },
        None => usual,
    }
}

fn parse_limit(s: &Option<String>, usual: usize) -> (r: usize)
    ensures
        r == limit_of(opt_text(*s), usual),
{
    match s {
        Some(t) => match parse_u64(t.as_str()) {
            Some(n) => if n <= usize::MAX as u64 {
                n as usize
            } else {
                usual
            },
            None => usual,
        },
        None => usual,
    }
}

impl Browse {
    /// What a browser's arguments ask for, from `i` on. The menu reads no further than its
    /// options.
    pub open spec fn with_args(
        self,
        t: Tool,
        usual: usize,
        argv: Seq<Seq<char>>,
        i: int,
    ) -> (Browse, Ending)
        decreases argv.len() + 1 - i,
    {
        if i < 0 || i >= argv.len() || (t == Tool::Menu && !begins(argv[i], "-"@)) {
            (self, Ending::Go)
        } else {
            let a = argv[i];
            if takes_run_options(t) && run_option(a) is Some {
                Browse { runopts: self.runopts.push(run_option(a)->0), ..self }.with_args(
                    t,
                    usual,
                    argv,
                    i + 1,
                )
            } else if a == "--refresh"@ && (t == Tool::Menu || t == Tool::Demos || t == Tool::Tunes) {
                Browse { refresh: true, ..self }.with_args(t, usual, argv, i + 1)
            } else if a == "--refresh-index"@ && t == Tool::Tosec {
                Browse { refresh: true, ..self }.with_args(t, usual, argv, i + 1)
            } else if a == "--radio"@ && t == Tool::Tunes {
                Browse { radio: true, ..self }.with_args(t, usual, argv, i + 1)
            } else if a == "--limit"@ && (t == Tool::Demos || t == Tool::Tunes) {
                Browse { limit: limit_of(text_at(argv, i + 1), usual), ..self }.with_args(
                    t,
                    usual,
                    argv,
                    i + 2,
                )
            } else if a == "-h"@ || a == "--help"@ {
                (self, Ending::Help)
            } else {
                (self, Ending::Unknown(a))
            }
        }
    }
}

/// What is asked of a browser when nothing is.
pub open spec fn browse_first(usual: usize) -> Browse {
    Browse { runopts: Seq::empty(), refresh: false, radio: false, limit: usual }
}

/// Reads the command line of a browser.
pub fn parse_browse(t: Tool, usual: usize, argv: &Vec<String>) -> (r: (BrowseArgs, End))
    ensures
        (r.0@, r.1@) == browse_first(usual).with_args(t, usual, texts(argv@), 0),
{
    let ghost all = texts(argv@);
    let n: usize = argv.len();
    let mut b = BrowseArgs { runopts: Vec::new(), refresh: false, radio: false, limit: usual };
    assert(b@ =~= browse_first(usual));
    let mut i: usize = 0;
    while i < n
        invariant
            all == texts(argv@),
            n == argv@.len(),
            i <= n,
            b@.with_args(t, usual, all, i as int) == browse_first(usual).with_args(t, usual, all, 0),
        decreases n - i,
    {
        let a = argv[i].as_str();
        assert(all[i as int] == a@);
        if t == Tool::Menu && !starts_with(a, "-") {
            return (b, End::Go);
        }
        let handed = if t == Tool::Menu || t == Tool::Kiosk || t == Tool::Demos || t == Tool::Tosec {
            find_run_option(a)
        } else {
            None
        };
        let ghost was = b@;
        match handed {
            Some(o) => {
                add_text(&mut b.runopts, o);
                assert(b@ =~= (Browse { runopts: was.runopts.push(o@), ..was }));
            },
            None => if same(a, "--refresh") && (t == Tool::Menu || t == Tool::Demos || t
                == Tool::Tunes) {
                b.refresh = true;
            } else if same(a, "--refresh-index") && t == Tool::Tosec {
                b.refresh = true;
            } else if same(a, "--radio") && t == Tool::Tunes {
                b.radio = true;
            } else if same(a, "--limit") && (t == Tool::Demos || t == Tool::Tunes) {
                b.limit = parse_limit(&arg_at(argv, i + 1), usual);
                if i + 1 >= n {
                    assert(b@.with_args(t, usual, all, i + 2) == (b@, Ending::Go));
                    return (b, End::Go);
                }
                i += 1;
            } else if same(a, "-h") || same(a, "--help") {
                return (b, End::Help);
            } else {
                let unknown = a.to_owned();
                return (b, End::Unknown(unknown));
            },
        }
        i += 1;
    }
    (b, End::Go)
}

// ---- downloads -------------------------------------------------------------------------------------------

/// What is asked of a tool that downloads.
#[derive(Debug)]
pub struct FetchArgs {
    /// Only list what would be downloaded.
    pub dry: bool,
    /// What is missing of the most popular.
    pub missing: bool,
    pub refresh: bool,
    pub dest: Option<String>,
    pub sources: Vec<String>,
    pub ident: Option<String>,
    pub queries: Vec<String>,
}

/// What is asked of a tool that downloads.
#[verifier::ext_equal]
pub struct Fetch {
    pub dry: bool,
    pub missing: bool,
    pub refresh: bool,
    pub dest: Option<Seq<char>>,
    pub sources: Seq<Seq<char>>,
    pub ident: Option<Seq<char>>,
    pub queries: Seq<Seq<char>>,
}

impl View for FetchArgs {
    type V = Fetch;

    open spec fn view(&self) -> Fetch {
        Fetch {
            dry: self.dry,
            missing: self.missing,
            refresh: self.refresh,
            dest: opt_text(self.dest),
            sources: texts(self.sources@),
            ident: opt_text(self.ident),
            queries: texts(self.queries@),
        }
    }
}

/// The sources that a name stands for; the ones before where none is given.
pub open spec fn sources_of(s: Option<Seq<char>>, before: Seq<Seq<char>>) -> Seq<Seq<char>> {
    match s {
        Some(t) => if t == "all"@ {
            seq!["ia"@, "tosec"@]
        } else {
            seq![t]
        },
        None => before,
    }
}

impl Fetch {
    /// What the arguments ask for, from `i` on. The tool for tapes knows neither items nor
    /// sources.
    pub open spec fn with_args(self, disks: bool, argv: Seq<Seq<char>>, i: int) -> (Fetch, Ending)
        decreases argv.len() + 1 - i,
    {
        if i < 0 || i >= argv.len() {
            (self, Ending::Go)
        } else {
            let a = argv[i];
            if a == "-n"@ || a == "--list"@ {
                Fetch { dry: true, ..self }.with_args(disks, argv, i + 1)
            } else if a == "--missing"@ {
                Fetch { missing: true, ..self }.with_args(disks, argv, i + 1)
            } else if disks && a == "--ia-index"@ {
                (self, Ending::BuildIndex)
            } else if disks && a == "--id"@ {
                Fetch { ident: text_at(argv, i + 1), ..self }.with_args(disks, argv, i + 2)
            } else if a == "--dest"@ {
                Fetch {
                    dest: if i + 1 < argv.len() {
                        Some(argv[i + 1])
                    } else {
                        self.dest
                    },
                    ..self
                }.with_args(disks, argv, i + 2)
            } else if disks && a == "--source"@ {
                Fetch { sources: sources_of(text_at(argv, i + 1), self.sources), ..self }.with_args(
                    disks,
                    argv,
                    i + 2,
                )
            } else if a == "--refresh-index"@ {
                Fetch { refresh: true, ..self }.with_args(disks, argv, i + 1)
            } else if a == "-h"@ || a == "--help"@ {
                (self, Ending::Help)
            } else if begins(a, "-"@) {
                (self, Ending::Unknown(a))
            } else {
                Fetch { queries: self.queries.push(a), ..self }.with_args(disks, argv, i + 1)
            }
        }
    }
}

/// What is asked of a tool that downloads when nothing is.
pub open spec fn fetch_first() -> Fetch {
    Fetch {
        dry: false,
        missing: false,
        refresh: false,
        dest: None,
        sources: seq!["ia"@],
        ident: None,
        queries: Seq::empty(),
    }
}

impl FetchArgs {
    /// Takes the sources that a name stands for.
    fn take_sources(&mut self, s: &Option<String>)
        ensures
            final(self)@ == (Fetch {
                sources: sources_of(opt_text(*s), old(self)@.sources),
                ..old(self)@
            }),
    {
        match s {
            Some(t) => {
                let mut v: Vec<String> = Vec::new();
                assert(texts(v@) =~= Seq::empty());
                if same(t.as_str(), "all") {
                    add_text(&mut v, "ia");
                    add_text(&mut v, "tosec");
                } else {
                    add_text(&mut v, t.as_str());
                }
                assert(texts(v@) =~= sources_of(opt_text(*s), old(self)@.sources));
                self.sources = v;
            },
            None => {},
        }
    }
}

/// Reads the command line of the tool for disks, or of the one for tapes.
pub fn parse_fetch(disks: bool, argv: &Vec<String>) -> (r: (FetchArgs, End))
    ensures
        (r.0@, r.1@) == fetch_first().with_args(disks, texts(argv@), 0),
{
    let ghost all = texts(argv@);
    let n: usize = argv.len();
    let mut first: Vec<String> = Vec::new();
    assert(texts(first@) =~= Seq::empty());
    add_text(&mut first, "ia");
    let mut f = FetchArgs {
        dry: false,
        missing: false,
        refresh: false,
        dest: None,
        sources: first,
        ident: None,
        queries: Vec::new(),
    };
    assert(f@ =~= fetch_first());
    let mut i: usize = 0;
    while i < n
        invariant
            all == texts(argv@),
            n == argv@.len(),
            i <= n,
            f@.with_args(disks, all, i as int) == fetch_first().with_args(disks, all, 0),
        decreases n - i,
    {
        let a = argv[i].as_str();
        assert(all[i as int] == a@);
        let ghost was = f@;
        if same(a, "-n") || same(a, "--list") {
            f.dry = true;
        } else if same(a, "--missing") {
            f.missing = true;
        } else if disks && same(a, "--ia-index") {
            return (f, End::BuildIndex);
        } else if (disks && same(a, "--id")) || same(a, "--dest") || (disks && same(a, "--source")) {
            let value = arg_at(argv, i + 1);
            if disks && same(a, "--id") {
                f.ident = value;
            } else if same(a, "--dest") {
                match value {
                    Some(d) => {
                        f.dest = Some(d);
                    },
                    None => {},
                }
            } else {
                f.take_sources(&value);
            }
            if i + 1 >= n {
                assert(f@.with_args(disks, all, i + 2) == (f@, Ending::Go));
                return (f, End::Go);
            }
            i += 1;
        } else if same(a, "--refresh-index") {
            f.refresh = true;
        } else if same(a, "-h") || same(a, "--help") {
            return (f, End::Help);
        } else if starts_with(a, "-") {
            let unknown = a.to_owned();
            return (f, End::Unknown(unknown));
        } else {
            add_text(&mut f.queries, a);
            assert(f@ =~= (Fetch { queries: was.queries.push(a@), ..was }));
        }
        i += 1;
    }
    (f, End::Go)
}

/// The sources among these that there are not.
pub open spec fn unknown_sources(ss: Seq<Seq<char>>) -> Seq<Seq<char>>
    decreases ss.len(),
{
    if ss.len() == 0 {
        Seq::empty()
    } else if ss.last() == "ia"@ || ss.last() == "tosec"@ {
        unknown_sources(ss.drop_last())
    } else {
        unknown_sources(ss.drop_last()).push(ss.last())
    }
}

/// What is said of sources that there are not; `None` when there are all.
pub fn bad_sources(sources: &Vec<String>) -> (r: Option<String>)
    ensures
        match r {
            Some(e) => unknown_sources(texts(sources@)).len() > 0 && e@ == "unknown source(s): "@
                + joined(unknown_sources(texts(sources@)), ", "@) + " (use ia, tosec, or all)"@,
            None => unknown_sources(texts(sources@)).len() == 0,
        },
{
    let ghost all = texts(sources@);
    let mut bad: Vec<String> = Vec::new();
    let mut i: usize = 0;
    assert(texts(bad@) =~= unknown_sources(all.take(0)));
    while i < sources.len()
        invariant
            all == texts(sources@),
            i <= sources@.len(),
            texts(bad@) == unknown_sources(all.take(i as int)),
        decreases sources@.len() - i,
    {
        proof {
            assert(all.take(i + 1).drop_last() =~= all.take(i as int));
            assert(all[i as int] == sources@[i as int]@);
        }
        if !(same(sources[i].as_str(), "ia") || same(sources[i].as_str(), "tosec")) {
            add_text(&mut bad, sources[i].as_str());
        }
        i += 1;
    }
    assert(all.take(i as int) =~= all);
    assert(texts(bad@).len() == bad@.len());
    if bad.len() == 0 {
        None
    } else {
        let mut s = "unknown source(s): ".to_string();
        s.append(join(&bad, ", ").as_str());
        s.append(" (use ia, tosec, or all)");
        Some(s)
    }
}

// ---- details -----------------------------------------------------------------------------------------------

/// What is asked of the tool for details.
#[derive(Debug)]
pub struct InfoArgs {
    pub refresh: bool,
    pub all: bool,
    pub words: Vec<String>,
}

/// What is asked of the tool for details.
#[verifier::ext_equal]
pub struct Wanted {
    pub refresh: bool,
    pub all: bool,
    pub words: Seq<Seq<char>>,
}

impl View for InfoArgs {
    type V = Wanted;

    open spec fn view(&self) -> Wanted {
        Wanted { refresh: self.refresh, all: self.all, words: texts(self.words@) }
    }
}

impl Wanted {
    pub open spec fn with_args(self, argv: Seq<Seq<char>>, i: int) -> (Wanted, Ending)
        decreases argv.len() + 1 - i,
    {
        if i < 0 || i >= argv.len() {
            (self, Ending::Go)
        } else {
            let a = argv[i];
            if a == "--refresh-db"@ {
                Wanted { refresh: true, ..self }.with_args(argv, i + 1)
            } else if a == "-a"@ || a == "--all"@ {
                Wanted { all: true, ..self }.with_args(argv, i + 1)
            } else if a == "-h"@ || a == "--help"@ {
                (self, Ending::Help)
            } else if begins(a, "-"@) {
                (self, Ending::Unknown(a))
            } else {
                Wanted { words: self.words.push(a), ..self }.with_args(argv, i + 1)
            }
        }
    }
}

/// What is asked of the tool for details when nothing is.
pub open spec fn wanted_first() -> Wanted {
    Wanted { refresh: false, all: false, words: Seq::empty() }
}

/// Reads the command line of the tool for details.
pub fn parse_info(argv: &Vec<String>) -> (r: (InfoArgs, End))
    ensures
        (r.0@, r.1@) == wanted_first().with_args(texts(argv@), 0),
{
    let ghost all = texts(argv@);
    let mut w = InfoArgs { refresh: false, all: false, words: Vec::new() };
    assert(w@ =~= wanted_first());
    let mut i: usize = 0;
    while i < argv.len()
        invariant
            all == texts(argv@),
            i <= argv@.len(),
            w@.with_args(all, i as int) == wanted_first().with_args(all, 0),
        decreases argv@.len() - i,
    {
        let a = argv[i].as_str();
        assert(all[i as int] == a@);
        let ghost was = w@;
        if same(a, "--refresh-db") {
            w.refresh = true;
        } else if same(a, "-a") || same(a, "--all") {
            w.all = true;
        } else if same(a, "-h") || same(a, "--help") {
            return (w, End::Help);
        } else if starts_with(a, "-") {
            let unknown = a.to_owned();
            return (w, End::Unknown(unknown));
        } else {
            add_text(&mut w.words, a);
            assert(w@ =~= (Wanted { words: was.words.push(a@), ..was }));
        }
        i += 1;
    }
    (w, End::Go)
}

// ---- laws --------------------------------------------------------------------------------------------------

/// A tool is found by its name, and every name that leads to the program is one of a tool.
pub proof fn law_tools_are_found_by_name(t: Tool, i: int)
    requires
        0 <= i < link_names_of().len(),
    ensures
        tool_named(tool_name_of(t)) == Some(t),
        tool_named(link_names_of()[i]) is Some,
        begins(link_names_of()[i], "c64"@),
{
    reveal_strlit("c64");
    reveal_strlit("c64run");
    reveal_strlit("c64info");
    reveal_strlit("c64disk");
    reveal_strlit("c64get");
    reveal_strlit("c64tosec");
    reveal_strlit("build_index");
    reveal_strlit("c64menu");
    reveal_strlit("c64kiosk");
    reveal_strlit("c64demos");
    reveal_strlit("c64tunes");
    assert("c64info"@[3] == 'i');
    assert("c64disk"@[3] == 'd' && "c64disk"@[4] == 'i');
    assert("c64menu"@[3] == 'm');
    assert("c64demos"@[3] == 'd');
    assert("c64tosec"@[3] == 't' && "c64tosec"@[4] == 'o');
    assert("c64kiosk"@[3] == 'k');
    assert("c64tunes"@[3] == 't' && "c64tunes"@[4] == 'u');
    assert("c64run"@[3] == 'r');
    assert("c64get"@[3] == 'g');
    let n = link_names_of()[i];
    assert(n.take(3) =~= "c64"@) by {
        assert(i == 0 || i == 1 || i == 2 || i == 3 || i == 4 || i == 5 || i == 6 || i == 7 || i
            == 8);
    }
}

// ---- what the options ask for ---------------------------------------------------------------------------------------

proof fn lemma_option_texts()
    ensures
        "-n"@.len() == 2 && "-n"@[1] == 'n',
        "-h"@.len() == 2 && "-h"@[1] == 'h',
        "-w"@.len() == 2 && "-w"@[1] == 'w',
        "-f"@.len() == 2 && "-f"@[1] == 'f',
        "-r"@.len() == 2 && "-r"@[1] == 'r',
        "-a"@.len() == 2 && "-a"@[1] == 'a',
        "--list"@.len() == 6 && "--list"@[2] == 'l',
        "--help"@.len() == 6 && "--help"@[2] == 'h',
        "--warp"@.len() == 6 && "--warp"@[2] == 'w',
        "--real"@.len() == 6 && "--real"@[2] == 'r',
        "--dest"@.len() == 6 && "--dest"@[2] == 'd',
        "--id"@.len() == 4,
        "--all"@.len() == 5,
        "--radio"@.len() == 7 && "--radio"@[2] == 'r',
        "--limit"@.len() == 7 && "--limit"@[2] == 'l',
        "--source"@.len() == 8,
        "--missing"@.len() == 9 && "--missing"@[2] == 'm',
        "--refresh"@.len() == 9 && "--refresh"@[2] == 'r',
        "--ia-index"@.len() == 10,
        "--fullscreen"@.len() == 12 && "--fullscreen"@[2] == 'f',
        "--refresh-db"@.len() == 12 && "--refresh-db"@[2] == 'r',
        "--refresh-index"@.len() == 15,
        "all"@.len() == 3,
        "ia"@.len() == 2 && "ia"@[0] == 'i',
        "tosec"@.len() == 5,
        "-"@.len() == 1 && "-"@[0] == '-',
{
    reveal_strlit("-n");
    reveal_strlit("--list");
    reveal_strlit("--missing");
    reveal_strlit("--ia-index");
    reveal_strlit("--id");
    reveal_strlit("--dest");
    reveal_strlit("--source");
    reveal_strlit("--refresh-index");
    reveal_strlit("-h");
    reveal_strlit("--help");
    reveal_strlit("-");
    reveal_strlit("-w");
    reveal_strlit("--warp");
    reveal_strlit("-f");
    reveal_strlit("--fullscreen");
    reveal_strlit("-r");
    reveal_strlit("--real");
    reveal_strlit("--refresh");
    reveal_strlit("--radio");
    reveal_strlit("--limit");
    reveal_strlit("--refresh-db");
    reveal_strlit("-a");
    reveal_strlit("--all");
    reveal_strlit("all");
    reveal_strlit("ia");
    reveal_strlit("tosec");
}

/// The options of the tools that download: a list alone, what is missing, another place, the
/// sources, an item by its identifier, and the index; each changes the one thing that it
/// names, and what follows is read with that.
pub proof fn law_options_of_downloads(f: Fetch, disks: bool, argv: Seq<Seq<char>>, i: int)
    requires
        0 <= i < argv.len(),
    ensures
        ({
            let a = argv[i];
            let r = f.with_args(disks, argv, i);
            &&& a == "-n"@ || a == "--list"@ ==> r == (Fetch { dry: true, ..f }).with_args(
                disks,
                argv,
                i + 1,
            )
            &&& a == "--missing"@ ==> r == (Fetch { missing: true, ..f }).with_args(disks, argv, i + 1)
            &&& a == "--refresh-index"@ ==> r == (Fetch { refresh: true, ..f }).with_args(
                disks,
                argv,
                i + 1,
            )
            &&& a == "--dest"@ && i + 1 < argv.len() ==> r == (Fetch { dest: Some(argv[i + 1]), ..f }).with_args(
                disks,
                argv,
                i + 2,
            )
            &&& disks && a == "--id"@ && i + 1 < argv.len() ==> r == (Fetch {
                ident: Some(argv[i + 1]),
                ..f
            }).with_args(disks, argv, i + 2)
            &&& disks && a == "--source"@ && i + 1 < argv.len() && argv[i + 1] == "all"@ ==> r == (Fetch {
                sources: seq!["ia"@, "tosec"@],
                ..f
            }).with_args(disks, argv, i + 2)
            &&& disks && a == "--source"@ && i + 1 < argv.len() && argv[i + 1] != "all"@ ==> r == (Fetch {
                sources: seq![argv[i + 1]],
                ..f
            }).with_args(disks, argv, i + 2)
            &&& disks && a == "--ia-index"@ ==> r == (f, Ending::BuildIndex)
            &&& a == "-h"@ || a == "--help"@ ==> r == (f, Ending::Help)
            &&& a.len() > 0 && a[0] != '-' ==> r == (Fetch { queries: f.queries.push(a), ..f }).with_args(
                disks,
                argv,
                i + 1,
            )
        }),
{
    lemma_option_texts();
    reveal_strlit("-n");
    reveal_strlit("--list");
    reveal_strlit("--missing");
    reveal_strlit("--ia-index");
    reveal_strlit("--id");
    reveal_strlit("--dest");
    reveal_strlit("--source");
    reveal_strlit("--refresh-index");
    reveal_strlit("-h");
    reveal_strlit("--help");
    reveal_strlit("-");
    reveal_strlit("-w");
    reveal_strlit("--warp");
    reveal_strlit("-f");
    reveal_strlit("--fullscreen");
    reveal_strlit("-r");
    reveal_strlit("--real");
    reveal_strlit("--refresh");
    reveal_strlit("--radio");
    reveal_strlit("--limit");
    reveal_strlit("--refresh-db");
    reveal_strlit("-a");
    reveal_strlit("--all");
    reveal_strlit("all");
    reveal_strlit("ia");
    reveal_strlit("tosec");
    let a = argv[i];
    if a.len() > 0 && a[0] != '-' {
        assert(!begins(a, "-"@)) by {
            if begins(a, "-"@) {
                assert(a.take(1)[0] == '-');
            }
        }
    }
}

/// Without options a download is from the Internet Archive, to the usual place, and is made.
pub proof fn law_defaults_of_downloads(disks: bool, argv: Seq<Seq<char>>)
    ensures
        !fetch_first().dry && !fetch_first().missing && !fetch_first().refresh,
        fetch_first().dest is None && fetch_first().ident is None,
        fetch_first().sources == seq!["ia"@],
        fetch_first().queries.len() == 0,
        argv.len() == 0 ==> fetch_first().with_args(disks, argv, 0) == (fetch_first(), Ending::Go),
{
}

/// The sources that there are not are told, in their order.
pub proof fn law_unknown_sources(ss: Seq<Seq<char>>, s: Seq<char>)
    ensures
        s == "ia"@ || s == "tosec"@ ==> unknown_sources(ss.push(s)) == unknown_sources(ss),
        s != "ia"@ && s != "tosec"@ ==> unknown_sources(ss.push(s)) == unknown_sources(ss).push(s),
{
    assert(ss.push(s).drop_last() =~= ss);
}

/// The options of the browsers: those for a launch are handed on in their short form, an
/// index is built anew where there is one, the radio is turned on, and a limit is set.
pub proof fn law_options_of_browsers(b: Browse, usual: usize, argv: Seq<Seq<char>>, i: int)
    requires
        0 <= i < argv.len(),
    ensures
        ({
            let a = argv[i];
            let menu = b.with_args(Tool::Menu, usual, argv, i);
            let demos = b.with_args(Tool::Demos, usual, argv, i);
            let tunes = b.with_args(Tool::Tunes, usual, argv, i);
            let kiosk = b.with_args(Tool::Kiosk, usual, argv, i);
            &&& a == "-w"@ || a == "--warp"@ ==> kiosk == (Browse { runopts: b.runopts.push("-w"@), ..b }).with_args(
                Tool::Kiosk,
                usual,
                argv,
                i + 1,
            )
            &&& a == "-f"@ || a == "--fullscreen"@ ==> kiosk == (Browse {
                runopts: b.runopts.push("-f"@),
                ..b
            }).with_args(Tool::Kiosk, usual, argv, i + 1)
            &&& a == "-r"@ || a == "--real"@ ==> demos == (Browse { runopts: b.runopts.push("-r"@), ..b }).with_args(
                Tool::Demos,
                usual,
                argv,
                i + 1,
            )
            &&& a == "--refresh"@ ==> demos == (Browse { refresh: true, ..b }).with_args(
                Tool::Demos,
                usual,
                argv,
                i + 1,
            ) && tunes == (Browse { refresh: true, ..b }).with_args(Tool::Tunes, usual, argv, i + 1)
            &&& a == "--radio"@ ==> tunes == (Browse { radio: true, ..b }).with_args(
                Tool::Tunes,
                usual,
                argv,
                i + 1,
            )
            &&& a == "-h"@ || a == "--help"@ ==> kiosk == (b, Ending::Help) && tunes == (b, Ending::Help)
            &&& a.len() > 0 && a[0] != '-' ==> menu == (b, Ending::Go)
        }),
{
    lemma_option_texts();
    reveal_strlit("-n");
    reveal_strlit("--list");
    reveal_strlit("--missing");
    reveal_strlit("--ia-index");
    reveal_strlit("--id");
    reveal_strlit("--dest");
    reveal_strlit("--source");
    reveal_strlit("--refresh-index");
    reveal_strlit("-h");
    reveal_strlit("--help");
    reveal_strlit("-");
    reveal_strlit("-w");
    reveal_strlit("--warp");
    reveal_strlit("-f");
    reveal_strlit("--fullscreen");
    reveal_strlit("-r");
    reveal_strlit("--real");
    reveal_strlit("--refresh");
    reveal_strlit("--radio");
    reveal_strlit("--limit");
    reveal_strlit("--refresh-db");
    reveal_strlit("-a");
    reveal_strlit("--all");
    reveal_strlit("all");
    reveal_strlit("ia");
    reveal_strlit("tosec");
    let a = argv[i];
    if a.len() > 0 && a[0] != '-' {
        assert(!begins(a, "-"@)) by {
            if begins(a, "-"@) {
                assert(a.take(1)[0] == '-');
            }
        }
    }
}

/// A limit is the number that follows it; where none does, the usual one stays.
pub proof fn law_limits(b: Browse, usual: usize, argv: Seq<Seq<char>>, i: int, n: usize)
    requires
        0 <= i,
        i + 1 < argv.len(),
        argv[i] == "--limit"@,
        argv[i + 1] == crate::text::decimal(n as nat),
    ensures
        b.with_args(Tool::Demos, usual, argv, i) == (Browse { limit: n, ..b }).with_args(
            Tool::Demos,
            usual,
            argv,
            i + 2,
        ),
        b.with_args(Tool::Tunes, usual, argv, i) == (Browse { limit: n, ..b }).with_args(
            Tool::Tunes,
            usual,
            argv,
            i + 2,
        ),
        limit_of(None, usual) == usual,
{
    lemma_option_texts();
    reveal_strlit("-n");
    reveal_strlit("--list");
    reveal_strlit("--missing");
    reveal_strlit("--ia-index");
    reveal_strlit("--id");
    reveal_strlit("--dest");
    reveal_strlit("--source");
    reveal_strlit("--refresh-index");
    reveal_strlit("-h");
    reveal_strlit("--help");
    reveal_strlit("-");
    reveal_strlit("-w");
    reveal_strlit("--warp");
    reveal_strlit("-f");
    reveal_strlit("--fullscreen");
    reveal_strlit("-r");
    reveal_strlit("--real");
    reveal_strlit("--refresh");
    reveal_strlit("--radio");
    reveal_strlit("--limit");
    reveal_strlit("--refresh-db");
    reveal_strlit("-a");
    reveal_strlit("--all");
    reveal_strlit("all");
    reveal_strlit("ia");
    reveal_strlit("tosec");
    crate::text::law_numbers_come_back(n as int);
    crate::text::lemma_decimal(n as nat);
    assert(crate::text::is_digit(crate::text::decimal(n as nat)[0]));
}

/// The options of the tool for details: all matches, and the database anew; words make up the
/// query.
pub proof fn law_options_of_details(w: Wanted, argv: Seq<Seq<char>>, i: int)
    requires
        0 <= i < argv.len(),
    ensures
        ({
            let a = argv[i];
            let r = w.with_args(argv, i);
            &&& a == "-a"@ || a == "--all"@ ==> r == (Wanted { all: true, ..w }).with_args(argv, i + 1)
            &&& a == "--refresh-db"@ ==> r == (Wanted { refresh: true, ..w }).with_args(argv, i + 1)
            &&& a == "-h"@ || a == "--help"@ ==> r == (w, Ending::Help)
            &&& a.len() > 0 && a[0] != '-' ==> r == (Wanted { words: w.words.push(a), ..w }).with_args(
                argv,
                i + 1,
            )
        }),
{
    lemma_option_texts();
    reveal_strlit("-n");
    reveal_strlit("--list");
    reveal_strlit("--missing");
    reveal_strlit("--ia-index");
    reveal_strlit("--id");
    reveal_strlit("--dest");
    reveal_strlit("--source");
    reveal_strlit("--refresh-index");
    reveal_strlit("-h");
    reveal_strlit("--help");
    reveal_strlit("-");
    reveal_strlit("-w");
    reveal_strlit("--warp");
    reveal_strlit("-f");
    reveal_strlit("--fullscreen");
    reveal_strlit("-r");
    reveal_strlit("--real");
    reveal_strlit("--refresh");
    reveal_strlit("--radio");
    reveal_strlit("--limit");
    reveal_strlit("--refresh-db");
    reveal_strlit("-a");
    reveal_strlit("--all");
    reveal_strlit("all");
    reveal_strlit("ia");
    reveal_strlit("tosec");
    let a = argv[i];
    if a.len() > 0 && a[0] != '-' {
        assert(!begins(a, "-"@)) by {
            if begins(a, "-"@) {
                assert(a.take(1)[0] == '-');
            }
        }
    }
}

/// A command of the program starts its tool with what follows it, under any of the names that
/// the tool goes by; without one the program is the kiosk.
pub proof fn law_commands_start_their_tools(cmd: Seq<char>, rest: Seq<Seq<char>>)
    ensures
        ({
            let c = call_of("breadbin"@, seq![cmd] + rest);
            &&& cmd == "menu"@ || cmd == "pick"@ || cmd == "browse"@ ==> c == Call::Tool(Tool::Menu, 1)
            &&& cmd == "kiosk"@ || cmd == "grid"@ || cmd == "cards"@ ==> c == Call::Tool(Tool::Kiosk, 1)
            &&& cmd == "play"@ || cmd == "run"@ || cmd == "launch"@ ==> c == Call::Tool(Tool::Run, 1)
            &&& cmd == "info"@ || cmd == "details"@ ==> c == Call::Tool(Tool::Info, 1)
            &&& cmd == "get"@ || cmd == "tape"@ ==> c == Call::Tool(Tool::Get, 1)
            &&& cmd == "disk"@ ==> c == Call::Tool(Tool::Disk, 1)
            &&& cmd == "tosec"@ || cmd == "browse-all"@ ==> c == Call::Tool(Tool::Tosec, 1)
            &&& cmd == "demos"@ || cmd == "demoscene"@ || cmd == "scene"@ ==> c == Call::Tool(Tool::Demos, 1)
            &&& cmd == "tunes"@ || cmd == "music"@ || cmd == "sid"@ || cmd == "jukebox"@ ==> c == Call::Tool(Tool::Tunes, 1)
            &&& cmd == "index"@ || cmd == "build-index"@ ==> c == Call::Tool(Tool::Index, 1)
            &&& cmd == "-h"@ || cmd == "--help"@ || cmd == "help"@ ==> c == Call::Help
        }),
        call_of("breadbin"@, Seq::empty()) == Call::Tool(Tool::Kiosk, 1),
{
    reveal_strlit("menu");
    reveal_strlit("pick");
    reveal_strlit("browse");
    reveal_strlit("kiosk");
    reveal_strlit("grid");
    reveal_strlit("cards");
    reveal_strlit("play");
    reveal_strlit("run");
    reveal_strlit("launch");
    reveal_strlit("info");
    reveal_strlit("details");
    reveal_strlit("get");
    reveal_strlit("tape");
    reveal_strlit("disk");
    reveal_strlit("tosec");
    reveal_strlit("browse-all");
    reveal_strlit("demos");
    reveal_strlit("demoscene");
    reveal_strlit("scene");
    reveal_strlit("tunes");
    reveal_strlit("music");
    reveal_strlit("sid");
    reveal_strlit("jukebox");
    reveal_strlit("index");
    reveal_strlit("build-index");
    reveal_strlit("_norm");
    reveal_strlit("_cover");
    reveal_strlit("_disk");
    reveal_strlit("_sid");
    reveal_strlit("-h");
    reveal_strlit("--help");
    reveal_strlit("help");
    reveal_strlit("install-links");
    reveal_strlit("c64");
    reveal_strlit("breadbin");
    let all = seq![cmd] + rest;
    assert(all[0] == cmd);
    assert(!begins("breadbin"@, "c64"@)) by {
        assert("breadbin"@.take(3)[0] == 'b');
        assert("c64"@[0] == 'c');
    }
    assert("menu"@.len() == 4 && "menu"@[0] == 'm' && "menu"@[1] == 'e' && "menu"@[2] == 'n');
    assert("pick"@.len() == 4 && "pick"@[0] == 'p' && "pick"@[1] == 'i' && "pick"@[2] == 'c');
    assert("browse"@.len() == 6 && "browse"@[0] == 'b' && "browse"@[1] == 'r' && "browse"@[2] == 'o');
    assert("kiosk"@.len() == 5 && "kiosk"@[0] == 'k' && "kiosk"@[1] == 'i' && "kiosk"@[2] == 'o');
    assert("grid"@.len() == 4 && "grid"@[0] == 'g' && "grid"@[1] == 'r' && "grid"@[2] == 'i');
    assert("cards"@.len() == 5 && "cards"@[0] == 'c' && "cards"@[1] == 'a' && "cards"@[2] == 'r');
    assert("play"@.len() == 4 && "play"@[0] == 'p' && "play"@[1] == 'l' && "play"@[2] == 'a');
    assert("run"@.len() == 3 && "run"@[0] == 'r' && "run"@[1] == 'u' && "run"@[2] == 'n');
    assert("launch"@.len() == 6 && "launch"@[0] == 'l' && "launch"@[1] == 'a' && "launch"@[2] == 'u');
    assert("info"@.len() == 4 && "info"@[0] == 'i' && "info"@[1] == 'n' && "info"@[2] == 'f');
    assert("details"@.len() == 7 && "details"@[0] == 'd' && "details"@[1] == 'e' && "details"@[2] == 't');
    assert("get"@.len() == 3 && "get"@[0] == 'g' && "get"@[1] == 'e' && "get"@[2] == 't');
    assert("tape"@.len() == 4 && "tape"@[0] == 't' && "tape"@[1] == 'a' && "tape"@[2] == 'p');
    assert("disk"@.len() == 4 && "disk"@[0] == 'd' && "disk"@[1] == 'i' && "disk"@[2] == 's');
    assert("tosec"@.len() == 5 && "tosec"@[0] == 't' && "tosec"@[1] == 'o' && "tosec"@[2] == 's');
    assert("browse-all"@.len() == 10 && "browse-all"@[0] == 'b' && "browse-all"@[1] == 'r' && "browse-all"@[2] == 'o');
    assert("demos"@.len() == 5 && "demos"@[0] == 'd' && "demos"@[1] == 'e' && "demos"@[2] == 'm');
    assert("demoscene"@.len() == 9 && "demoscene"@[0] == 'd' && "demoscene"@[1] == 'e' && "demoscene"@[2] == 'm');
    assert("scene"@.len() == 5 && "scene"@[0] == 's' && "scene"@[1] == 'c' && "scene"@[2] == 'e');
    assert("tunes"@.len() == 5 && "tunes"@[0] == 't' && "tunes"@[1] == 'u' && "tunes"@[2] == 'n');
    assert("music"@.len() == 5 && "music"@[0] == 'm' && "music"@[1] == 'u' && "music"@[2] == 's');
    assert("sid"@.len() == 3 && "sid"@[0] == 's' && "sid"@[1] == 'i' && "sid"@[2] == 'd');
    assert("jukebox"@.len() == 7 && "jukebox"@[0] == 'j' && "jukebox"@[1] == 'u' && "jukebox"@[2] == 'k');
    assert("index"@.len() == 5 && "index"@[0] == 'i' && "index"@[1] == 'n' && "index"@[2] == 'd');
    assert("build-index"@.len() == 11 && "build-index"@[0] == 'b' && "build-index"@[1] == 'u' && "build-index"@[2] == 'i');
    assert("_norm"@.len() == 5 && "_norm"@[0] == '_' && "_norm"@[1] == 'n' && "_norm"@[2] == 'o');
    assert("_cover"@.len() == 6 && "_cover"@[0] == '_' && "_cover"@[1] == 'c' && "_cover"@[2] == 'o');
    assert("_disk"@.len() == 5 && "_disk"@[0] == '_' && "_disk"@[1] == 'd' && "_disk"@[2] == 'i');
    assert("_sid"@.len() == 4 && "_sid"@[0] == '_' && "_sid"@[1] == 's' && "_sid"@[2] == 'i');
    assert("-h"@.len() == 2 && "-h"@[0] == '-' && "-h"@[1] == 'h');
    assert("--help"@.len() == 6 && "--help"@[0] == '-' && "--help"@[1] == '-' && "--help"@[2] == 'h');
    assert("help"@.len() == 4 && "help"@[0] == 'h' && "help"@[1] == 'e' && "help"@[2] == 'l');
    assert("install-links"@.len() == 13 && "install-links"@[0] == 'i' && "install-links"@[1] == 'n' && "install-links"@[2] == 's');
    assert("c64"@.len() == 3 && "c64"@[0] == 'c' && "c64"@[1] == '6' && "c64"@[2] == '4');
    assert("breadbin"@.len() == 8 && "breadbin"@[0] == 'b' && "breadbin"@[1] == 'r' && "breadbin"@[2] == 'e');
}

/// What is asked of a browser, or of the tool for details, when nothing is.
pub proof fn law_defaults_of_browsers(usual: usize)
    ensures
        browse_first(usual).runopts.len() == 0,
        !browse_first(usual).refresh && !browse_first(usual).radio,
        browse_first(usual).limit == usual,
        !wanted_first().refresh && !wanted_first().all && wanted_first().words.len() == 0,
        takes_run_options(Tool::Menu) && takes_run_options(Tool::Kiosk) && takes_run_options(
            Tool::Demos,
        ) && takes_run_options(Tool::Tosec),
        !takes_run_options(Tool::Tunes),
{
}

} // verus!
