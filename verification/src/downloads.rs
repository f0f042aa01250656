//! Downloading disks: which files of an item are fetched and from where, what is made of
//! what came, and what is said about it.

use crate::demos::{dotted_extension, extension_with_dot};
use crate::disk::{
    best_names, extensions, file_names, files_to_get, got, ia_names, is_disk, may_be_disk,
    member_to_get, shortest, title_coverage, wanted,
};
use crate::formats::{zip_content, zip_directory, zip_names, zip_read};
use crate::order::sorted_texts;
use crate::releases::Handle;
use crate::text::{
    append, begins, decimal, decimal_text, int_text, number_text, replace, replaced, same,
    texts,
};
use crate::url::{quote, quote_of};
use vstd::prelude::*;

verus! {

/// Where an offered disk is downloaded from.
#[derive(Debug)]
pub enum Download {
    /// An archive at this address, which has to be unpacked.
    Tosec(String),
    /// The files of the item with this identifier.
    Item(String),
}

/// What a source has is an archive that has to be unpacked.
pub open spec fn is_archive(src: Seq<char>) -> bool {
    src == "tosec"@
}

/// How an offered disk is downloaded.
pub fn download(handle: &Handle) -> (r: Download)
    ensures
        (r is Tosec) == is_archive(handle.src@),
        match r {
            Download::Tosec(url) => handle.src@ == "tosec"@ && url@ == handle.reff@,
            Download::Item(ident) => handle.src@ != "tosec"@ && ident@ == handle.reff@,
        },
{
    if same(handle.src, "tosec") {
        Download::Tosec(handle.reff.clone())
    } else {
        Download::Item(handle.reff.clone())
    }
}

// ---- files of an item --------------------------------------------------------------------------

/// The address of the list of an item's files.
pub fn meta_url(ident: &str) -> (r: String)
    ensures
        r@ == "https://archive.org/metadata/"@ + ident@,
{
    append("https://archive.org/metadata/", ident)
}

/// The files of an item that are downloaded, from the list of its files.
pub fn item_files(meta: &str) -> (r: Vec<String>)
    ensures
        texts(r@) == sorted_texts(best_names(ia_names(meta@), extensions())),
{
    files_to_get(&file_names(meta))
}

/// The address of a file of an item.
pub fn file_url(ident: &str, name: &str) -> (r: String)
    ensures
        r@ == "https://archive.org/download/"@ + ident@ + "/"@ + quote_of(name@),
{
    let a = append("https://archive.org/download/", ident);
    let b = append(a.as_str(), "/");
    append(b.as_str(), quote(name).as_str())
}

/// What is done about a file.
#[derive(Clone, Copy, PartialEq, Eq, Structural, Debug)]
pub enum Step {
    /// It is only listed.
    Listed,
    /// It is there already.
    There,
    /// It is fetched.
    Fetch,
}

/// What is done about a file of which so much is kept already.
pub open spec fn step_for(dry: bool, kept: Option<u64>) -> Step {
    if dry {
        Step::Listed
    } else {
        match kept {
            Some(n) => if n > 0 {
                Step::There
            } else {
                Step::Fetch
            },
            None => Step::Fetch,
        }
    }
}

/// What is done about a file: nothing when only a list is wanted, and nothing when there
/// is such a file, unless it is empty.
pub fn step(dry: bool, kept: Option<u64>) -> (r: Step)
    ensures
        r == step_for(dry, kept),
        r == (if dry {
            Step::Listed
        } else if kept matches Some(n) && n > 0 {
            Step::There
        } else {
            Step::Fetch
        }),
{
    if dry {
        return Step::Listed;
    }
    match kept {
        Some(n) => if n > 0 {
            Step::There
        } else {
            Step::Fetch
        },
        None => Step::Fetch,
    }
}

/// What is said of a file that is not fetched.
pub open spec fn step_line(s: Step, name: Seq<char>) -> Seq<char> {
    match s {
        Step::Listed => "    would download: "@ + name,
        Step::There => "    exists, skip: "@ + name,
        Step::Fetch => Seq::empty(),
    }
}

pub fn step_note(s: Step, name: &str) -> (r: String)
    ensures
        r@ == step_line(s, name@),
{
    match s {
        Step::Listed => append("    would download: ", name),
        Step::There => append("    exists, skip: ", name),
        Step::Fetch => {
            let r = String::new();
            assert(r@ =~= Seq::empty());
            r
        },
    }
}

/// What is said of a file that was saved.
pub open spec fn saved_line(name: Seq<char>, len: int) -> Seq<char> {
    "    saved: "@ + name + " ("@ + decimal((len / 1024) as nat) + " KB)"@
}

pub fn saved_note(name: &str, len: usize) -> (r: String)
    ensures
        r@ == saved_line(name@, len as int),
{
    let mut s = "    saved: ".to_string();
    s.append(name);
    s.append(" (");
    s.append(decimal_text(len as u64 / 1024).as_str());
    s.append(" KB)");
    s
}

/// Checks a file of an item: what is no disk is not kept, and it is said why.
pub fn check_file(data: &Vec<u8>, name: &str) -> (r: Result<(), String>)
    ensures
        match r {
            Ok(_) => may_be_disk(data@),
            Err(e) => !may_be_disk(data@) && e@ == "    !! not a disk image ("@ + decimal(
                data@.len(),
            ) + "B) - skipped: "@ + name@,
        },
{
    if is_disk(data) {
        Ok(())
    } else {
        let mut s = "    !! not a disk image (".to_string();
        s.append(decimal_text(data.len() as u64).as_str());
        s.append("B) - skipped: ");
        s.append(name);
        Err(s)
    }
}

// ---- archives ---------------------------------------------------------------------------------------

/// A name that is safe for a file: with dashes for slashes.
pub open spec fn dashed(s: Seq<char>) -> Seq<char> {
    replaced(s, "/"@, "-"@)
}

/// The name that is listed for an archive that is not fetched.
pub fn listed_name(title: &str) -> (r: String)
    ensures
        r@ == dashed(title@) + ".d64"@,
{
    proof {
        reveal_strlit("/");
    }
    append(replace(title, "/", "-").as_str(), ".d64")
}

/// What is found in an archive: its best image, and the name that is kept under.
#[derive(Debug)]
pub struct Member {
    pub name: String,
    pub file: String,
}

/// Finds the image in an archive.
pub fn find_member(data: &Vec<u8>, title: &str) -> (r: Result<Member, String>)
    ensures
        match zip_directory(data@) {
            None => r matches Err(e) && begins(e@, "    !! bad TOSEC zip: "@),
            Some(names) => {
                let best = best_names(names, extensions());
                match r {
                    Ok(m) => best.len() > 0 && m.name@ == shortest(best) && m.file@ == dashed(
                        title@ + dotted_extension(shortest(best)),
                    ),
                    Err(e) => best.len() == 0 && e@ == "    (no disk image in TOSEC zip)"@,
                }
            },
        },
{
    proof {
        reveal_strlit("/");
    }
    let names = match zip_names(data) {
        Ok(names) => names,
        Err(e) => {
            let why = append("    !! bad TOSEC zip: ", e.as_str());
            assert(why@.take("    !! bad TOSEC zip: "@.len() as int) =~= "    !! bad TOSEC zip: "@);
            return Err(why);
        },
    };
    match member_to_get(&names) {
        Some(name) => {
            let ext = extension_with_dot(name.as_str());
            let file = replace(append(title, ext.as_str()).as_str(), "/", "-");
            Ok(Member { name, file })
        },
        None => Err("    (no disk image in TOSEC zip)".to_string()),
    }
}

/// Unpacks the image in an archive. What is no disk is not kept, and it is said why.
pub fn unpack_member(data: &Vec<u8>, m: &Member) -> (r: Result<Vec<u8>, String>)
    ensures
        match (zip_content(data@, m.name@), r) {
            (None, Err(e)) => e@ == "    !! could not read zip member"@,
            (Some(blob), Ok(v)) => may_be_disk(blob) && v@ == blob,
            (Some(blob), Err(e)) => !may_be_disk(blob) && e@
                == "    !! not a disk image - skipped: "@ + m.file@,
            (None, Ok(_)) => false,
        },
{
    match zip_read(data, m.name.as_str()) {
        Ok(blob) => if is_disk(&blob) {
            Ok(blob)
        } else {
            Err(append("    !! not a disk image - skipped: ", m.file.as_str()))
        },
        Err(_) => Err("    !! could not read zip member".to_string()),
    }
}

// ---- what came of it ----------------------------------------------------------------------------------

/// The names of files as titles: with spaces for underscores.
pub open spec fn spaced_names(files: Seq<Seq<char>>) -> Seq<Seq<char>> {
    files.map_values(|f: Seq<char>| replaced(f, "_"@, " "@))
}

/// What is said of the disks of a game: how many there are of how many there should be.
pub open spec fn disks_line(have: int, want: int) -> Seq<char> {
    number_text(have) + "/"@ + number_text(want) + " disk(s)"@ + (if have >= want {
        Seq::empty()
    } else {
        "  \u{26a0} incomplete - only "@ + number_text(have) + " of "@ + number_text(want)
            + " found"@
    })
}

/// What is said of the files that a game was downloaded to.
pub fn disks_note(files: &Vec<String>) -> (r: String)
    ensures
        r@ == disks_line(
            got(spaced_names(texts(files@))) as int,
            wanted(spaced_names(texts(files@))) as int,
        ),
{
    let ghost goal = spaced_names(texts(files@));
    proof {
        reveal_strlit("_");
    }
    let mut names: Vec<String> = Vec::new();
    let mut i: usize = 0;
    while i < files.len()
        invariant
            goal == spaced_names(texts(files@)),
            "_"@.len() > 0,
            i <= files@.len(),
            names@.len() == i,
            forall|k: int| 0 <= k < i ==> (#[trigger] names@[k])@ == goal[k],
        decreases files@.len() - i,
    {
        names.push(replace(files[i].as_str(), "_", " "));
        i += 1;
    }
    assert(texts(names@) =~= goal);
    let (have, want) = title_coverage(&names);
    let h = decimal_text(have as u64);
    let w = int_text(want as i64);
    let mut s = h.clone();
    s.append("/");
    s.append(w.as_str());
    s.append(" disk(s)");
    if want <= 0 || have >= want as usize {
        assert(s@ =~= disks_line(have as int, want as int));
        s
    } else {
        s.append("  \u{26a0} incomplete - only ");
        s.append(h.as_str());
        s.append(" of ");
        s.append(w.as_str());
        s.append(" found");
        assert(s@ =~= disks_line(have as int, want as int));
        s
    }
}

/// What is said at the end.
pub fn total_note(dry: bool, total: usize, games: usize) -> (r: String)
    ensures
        r@ == (if dry {
            "would download"@
        } else {
            "downloaded"@
        }) + " "@ + decimal(total as nat) + " disk image(s) for "@ + decimal(games as nat)
            + " game(s)."@,
{
    let mut s = if dry {
        "would download".to_string()
    } else {
        "downloaded".to_string()
    };
    s.append(" ");
    s.append(decimal_text(total as u64).as_str());
    s.append(" disk image(s) for ");
    s.append(decimal_text(games as u64).as_str());
    s.append(" game(s).");
    s
}

// ---- laws -----------------------------------------------------------------------------------------------------------

/// Nothing is fetched where only a list is asked for, nor what is there already; an empty file
/// is as good as none.
pub proof fn law_what_is_there_is_not_fetched(n: u64)
    requires
        n > 0,
    ensures
        step_for(true, Some(n)) == Step::Listed,
        step_for(true, None) == Step::Listed,
        step_for(false, Some(n)) == Step::There,
        step_for(false, Some(0)) == Step::Fetch,
        step_for(false, None) == Step::Fetch,
{
}

/// The archives of TOSEC are unpacked; the items of the Internet Archive are not.
pub proof fn law_tosec_has_archives()
    ensures
        is_archive("tosec"@),
        !is_archive("ia"@),
{
    reveal_strlit("tosec");
    reveal_strlit("ia");
    assert("tosec"@.len() == 5 && "ia"@.len() == 2);
}

/// A set of disks is complete when there are as many as there should be, and is called
/// incomplete otherwise.
pub proof fn law_missing_disks_are_told(have: int, want: int)
    ensures
        have >= want ==> disks_line(have, want) == number_text(have) + "/"@ + number_text(want)
            + " disk(s)"@,
        have < want ==> disks_line(have, want) == number_text(have) + "/"@ + number_text(want)
            + " disk(s)"@ + "  \u{26a0} incomplete - only "@ + number_text(have) + " of "@
            + number_text(want) + " found"@,
{
    let head = number_text(have) + "/"@ + number_text(want) + " disk(s)"@;
    assert(head + Seq::<char>::empty() =~= head);
    assert(disks_line(have, want) =~= if have >= want {
        head
    } else {
        head + "  \u{26a0} incomplete - only "@ + number_text(have) + " of "@ + number_text(want)
            + " found"@
    });
}

} // verus!
