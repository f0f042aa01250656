//! C64 Forever: the licensed ROMs of the user's own installation. None are ever
//! downloaded.

use crate::text::{opt_text, trim, trimmed};
use vstd::prelude::*;

verus! {

/// How the licensed ROMs are used.
#[derive(Clone, Debug)]
pub enum Forever {
    /// The VICE that comes with C64 Forever, which finds its own ROMs.
    BundledVice { x64_exe: String, wine_prefix: Option<String> },
    /// A directory of ROM files.
    RomDir(String),
}

/// How the licensed ROMs are used.
pub enum Licensed {
    BundledVice { x64_exe: Seq<char>, wine_prefix: Option<Seq<char>> },
    RomDir(Seq<char>),
}

impl View for Forever {
    type V = Licensed;

    open spec fn view(&self) -> Licensed {
        match *self {
            Forever::BundledVice { x64_exe, wine_prefix } => Licensed::BundledVice {
                x64_exe: x64_exe@,
                wine_prefix: opt_text(wine_prefix),
            },
            Forever::RomDir(d) => Licensed::RomDir(d@),
        }
    }
}

pub open spec fn forever_view(f: Option<Forever>) -> Option<Licensed> {
    match f {
        Some(x) => Some(x@),
        None => None,
    }
}

/// The directory of ROM files: the one that is configured, unless it is blank, else
/// the environment's.
pub open spec fn rom_directory(configured: Option<Seq<char>>, env: Option<Seq<char>>) -> Option<
    Seq<char>,
> {
    match configured {
        Some(d) => if trimmed(d).len() > 0 {
            Some(d)
        } else {
            env
        },
        None => env,
    }
}

/// The directory of ROM files to look into.
pub fn rom_dir(configured: Option<&str>, env: &Option<String>) -> (r: Option<String>)
    ensures
        opt_text(r) == rom_directory(
            match configured {
                Some(d) => Some(d@),
                None => None,
            },
            opt_text(*env),
        ),
{
    match configured {
        Some(d) => if !trim(d).as_str().is_empty() {
            return Some(d.to_owned());
        },
        None => {},
    }
    match env {
        Some(d) => Some(d.clone()),
        None => None,
    }
}

/// The installation: the bundled VICE before a directory, and a directory only when
/// it has the ROMs.
pub open spec fn installation(
    bundled: bool,
    dir: Option<Seq<char>>,
    has_roms: bool,
) -> Option<Licensed> {
    if bundled {
        Some(
            Licensed::BundledVice {
                x64_exe: crate::run::wine_x64_path(),
                wine_prefix: Some("/opt/wine/.wine"@),
            },
        )
    } else {
        match dir {
            Some(d) => if has_roms {
                Some(Licensed::RomDir(d))
            } else {
                None
            },
            None => None,
        }
    }
}

/// The installation of C64 Forever: `bundled` says whether its VICE is there, and
/// `has_roms` whether the directory has the ROM files.
pub fn detect(bundled: bool, dir: &Option<String>, has_roms: bool) -> (r: Option<Forever>)
    ensures
        forever_view(r) == installation(bundled, opt_text(*dir), has_roms),
{
    if bundled {
        return Some(
            Forever::BundledVice {
                x64_exe: "/opt/wine/.wine/drive_c/Program Files (x86)/Cloanto/C64 Forever/VICE/x64.exe".to_string(),
                wine_prefix: Some("/opt/wine/.wine".to_string()),
            },
        );
    }
    match dir {
        Some(d) => if has_roms {
            Some(Forever::RomDir(d.clone()))
        } else {
            None
        },
        None => None,
    }
}

/// Whether there is a usable installation.
pub fn present(bundled: bool, dir: &Option<String>, has_roms: bool) -> (r: bool)
    ensures
        r == (installation(bundled, opt_text(*dir), has_roms) is Some),
{
    detect(bundled, dir, has_roms).is_some()
}

/// The ROM files that a directory has to have.
pub open spec fn rom_files() -> Seq<Seq<char>> {
    seq!["kernal"@, "basic"@, "chargen"@]
}

pub fn required_roms() -> (r: Vec<String>)
    ensures
        crate::text::texts(r@) == rom_files(),
{
    let mut v: Vec<String> = Vec::new();
    v.push("kernal".to_string());
    v.push("basic".to_string());
    v.push("chargen".to_string());
    assert(crate::text::texts(v@) =~= rom_files());
    v
}

/// Nothing is launched without an installation: neither the bundled VICE nor a
/// directory with the ROMs.
pub proof fn law_no_roms_no_launch(dir: Option<Seq<char>>)
    ensures
        installation(false, dir, false) is None,
        installation(false, None, true) is None,
{
}

/// The VICE of C64 Forever is used where it is installed; else the directory of ROM files,
/// where it has them.
pub proof fn law_the_bundled_emulator_comes_first(dir: Seq<char>, has_roms: bool)
    ensures
        installation(true, Some(dir), has_roms) matches Some(Licensed::BundledVice { .. }),
        installation(false, Some(dir), true) == Some(Licensed::RomDir(dir)),
{
}

/// The directory that is configured counts, unless it is blank; else that of the environment.
pub proof fn law_the_configured_directory_counts(d: Seq<char>, env: Option<Seq<char>>)
    ensures
        trimmed(d).len() > 0 ==> rom_directory(Some(d), env) == Some(d),
        trimmed(d).len() == 0 ==> rom_directory(Some(d), env) == env,
        rom_directory(None, env) == env,
{
}

/// The three ROM files of the machine are needed.
pub proof fn law_three_roms_are_needed(f: Seq<char>)
    ensures
        rom_files().contains(f) <==> f == "kernal"@ || f == "basic"@ || f == "chargen"@,
{
    let r = rom_files();
    assert(r[0] == "kernal"@ && r[1] == "basic"@ && r[2] == "chargen"@);
}

} // verus!
