//! The index of games: the ranked list of the archive matched against the files of
//! the local collection.

use crate::catalogue::{count_in, game_of_record, games_of_records, games_of_text, Game};
use crate::disk::{group_count, small_number};
use crate::ia_index::{
    ia_index_of, index_record as ranked_record, rank_keys, ranked, Known, Leader,
};
use crate::keyed::{entries, get, lookup, Entries};
use crate::pattern::{
    find_pattern, first_group, founds, in_order, matches_of, splice_with, spliced_with, Found,
    Pattern,
};
use crate::releases::first_group_text;
use crate::sections::lemma_order_below;
use crate::table::{
    fields_view, fits_record, law_records_come_back, records_of, table_text, write_records,
};
use crate::text::{
    append, char_from, chars_of, count, count_of, ends, ends_with, lemma_char_from, lines,
    lines_of, lowered, replace, replaced, same, split_all, split_n, splitn, string_range, texts,
    to_lowercase,
};
use crate::titles::{before_pattern, cut_pattern, norm, norm_of};
use vstd::prelude::*;
use vstd::utf8::encode_utf8;

verus! {

// ---- the names of files ---------------------------------------------------------------------------

/// A text without its first match.
pub open spec fn without_first(s: Seq<char>, ms: Seq<(int, int, Option<Seq<char>>)>) -> Seq<char> {
    if ms.len() > 0 {
        s.take(ms[0].0) + s.skip(ms[0].1)
    } else {
        s
    }
}

pub fn remove_first(s: &str, found: &Vec<Found>) -> (r: String)
    requires
        in_order(founds(found@), s@.len()),
    ensures
        r@ == without_first(s@, founds(found@)),
{
    if found.len() > 0 {
        assert(founds(found@)[0] == found@[0]@);
        let v = chars_of(s);
        let a = string_range(&v, 0, found[0].start);
        let b = string_range(&v, found[0].end, v.len());
        assert(a@ =~= s@.take(found@[0].start as int));
        assert(b@ =~= s@.skip(found@[0].end as int));
        append(a.as_str(), b.as_str())
    } else {
        s.to_owned()
    }
}

/// Where the first bracket of a text is; its length when there is none.
pub open spec fn first_bracket(s: Seq<char>, from: int) -> int
    decreases s.len() - from,
{
    if from >= s.len() || s[from] == '(' || s[from] == '[' {
        from
    } else {
        first_bracket(s, from + 1)
    }
}

pub open spec fn before_bracket(s: Seq<char>) -> Seq<char> {
    s.take(first_bracket(s, 0))
}

pub fn cut_bracket(s: &str) -> (r: String)
    ensures
        r@ == before_bracket(s@),
{
    let v = chars_of(s);
    let mut i: usize = 0;
    while i < v.len() && v[i] != '(' && v[i] != '['
        invariant
            v@ == s@,
            i <= v@.len(),
            first_bracket(s@, 0) == first_bracket(s@, i as int),
        decreases v@.len() - i,
    {
        i += 1;
    }
    let r = string_range(&v, 0, i);
    assert(r@ =~= s@.take(i as int));
    r
}

/// A text up to the first year that has text before it, where one was found: the
/// match begins with the last character of that text.
pub open spec fn before_year(s: Seq<char>, ms: Seq<(int, int, Option<Seq<char>>)>) -> Seq<char> {
    if ms.len() > 0 {
        s.take(
            if ms[0].0 < s.len() {
                ms[0].0 + 1
            } else {
                s.len() as int
            },
        )
    } else {
        s
    }
}

pub fn cut_year(s: &str, found: &Vec<Found>) -> (r: String)
    requires
        in_order(founds(found@), s@.len()),
    ensures
        r@ == before_year(s@, founds(found@)),
{
    if found.len() > 0 {
        assert(founds(found@)[0] == found@[0]@);
        let v = chars_of(s);
        let end: usize = if found[0].start < v.len() {
            found[0].start + 1
        } else {
            v.len()
        };
        let r = string_range(&v, 0, end);
        assert(r@ =~= s@.take(end as int));
        r
    } else {
        s.to_owned()
    }
}

/// The key of the game that a file is of: its name without extension, details,
/// year, medium and version.
pub open spec fn file_key_of(name: Seq<char>) -> Seq<char> {
    let a = without_first(name, matches_of(Pattern::Extension, name));
    let b = before_bracket(replaced(a, "_"@, " "@));
    let c = before_year(b, matches_of(Pattern::Year, b));
    let d = before_pattern(c, Pattern::Descriptor);
    norm_of(spliced_with(d, matches_of(Pattern::Version, d), ""@))
}

/// The key of the game that a file is of.
pub fn file_key(basename: &str) -> (r: String)
    ensures
        r@ == file_key_of(basename@),
{
    proof {
        reveal_strlit("_");
    }
    let a = remove_first(basename, &find_pattern(Pattern::Extension, basename));
    let b = cut_bracket(replace(a.as_str(), "_", " ").as_str());
    let c = cut_year(b.as_str(), &find_pattern(Pattern::Year, b.as_str()));
    let d = cut_pattern(c.as_str(), Pattern::Descriptor);
    let e = splice_with(d.as_str(), &find_pattern(Pattern::Version, d.as_str()), "");
    norm(e.as_str())
}

// ---- the order of loading -----------------------------------------------------------------------------

/// The number that a letter stands for, "a" being one.
pub open spec fn letter_number(s: Option<Seq<char>>) -> Option<i32> {
    match s {
        Some(t) => if t.len() == 0 {
            None
        } else if 'A' <= t[0] <= 'Z' {
            Some((t[0] as u32 - 'A' as u32 + 1) as i32)
        } else {
            Some((t[0] as u32 - 'a' as u32 + 1) as i32)
        },
        None => None,
    }
}

/// The number of a medium, from the matches of its figure and of its letter: the
/// figure counts before the letter.
pub open spec fn medium_number(
    by_digit: Seq<(int, int, Option<Seq<char>>)>,
    by_letter: Seq<(int, int, Option<Seq<char>>)>,
) -> Option<i32> {
    if by_digit.len() > 0 {
        small_number(first_group(by_digit))
    } else if by_letter.len() > 0 {
        letter_number(first_group(by_letter))
    } else {
        None
    }
}

pub open spec fn medium_in(s: Seq<char>, digit: Pattern, letter: Pattern) -> Option<i32> {
    medium_number(matches_of(digit, s), matches_of(letter, s))
}

pub open spec fn or_else(a: Option<i32>, b: Option<i32>) -> Option<i32> {
    match a {
        Some(n) => Some(n),
        None => b,
    }
}

pub open spec fn or_default(a: Option<i32>, d: i32) -> i32 {
    match a {
        Some(n) => n,
        None => d,
    }
}

/// The place of a file in the order of loading: the number of its tape, disk or
/// part, and its side. A single file is the first, on no side.
pub open spec fn load_rank_of(name: Seq<char>) -> (i32, i32) {
    let b = replaced(name, "_"@, " "@);
    let medium = or_else(
        medium_in(b, Pattern::TapeDigit, Pattern::TapeLetter),
        or_else(
            medium_in(b, Pattern::DiskDigit, Pattern::DiskLetter),
            medium_in(b, Pattern::PartDigit, Pattern::PartLetter),
        ),
    );
    let side = if matches_of(Pattern::Start, b).len() > 0 {
        1
    } else if matches_of(Pattern::End, b).len() > 0 {
        3
    } else {
        0
    };
    (
        or_default(medium, 1),
        or_default(medium_in(b, Pattern::SideDigit, Pattern::SideLetter), side),
    )
}

/// The number that a letter stands for.
fn letter_value(found: &Vec<Found>) -> (r: Option<i32>)
    ensures
        r == letter_number(first_group(founds(found@))),
{
    match first_group_text(found) {
        Some(g) => {
            let v = chars_of(g.as_str());
            if v.len() == 0 {
                None
            } else {
                let c: char = v[0];
                let u: u32 = c as u32;
                proof {
                    vstd::utf8::char_is_scalar(c);
                }
                if 'A' <= c && c <= 'Z' {
                    Some((u - 'A' as u32 + 1) as i32)
                } else {
                    Some(u as i32 - 'a' as i32 + 1)
                }
            }
        },
        None => None,
    }
}

/// The number of a medium.
pub fn medium_value(by_digit: &Vec<Found>, by_letter: &Vec<Found>) -> (r: Option<i32>)
    ensures
        r == medium_number(founds(by_digit@), founds(by_letter@)),
{
    assert(founds(by_digit@).len() == by_digit@.len());
    assert(founds(by_letter@).len() == by_letter@.len());
    if by_digit.len() > 0 {
        group_count(by_digit)
    } else if by_letter.len() > 0 {
        letter_value(by_letter)
    } else {
        None
    }
}

fn find_medium(s: &str, digit: Pattern, letter: Pattern) -> (r: Option<i32>)
    ensures
        r == medium_in(s@, digit, letter),
{
    medium_value(&find_pattern(digit, s), &find_pattern(letter, s))
}

fn is_found(p: Pattern, s: &str) -> (r: bool)
    ensures
        r == (matches_of(p, s@).len() > 0),
{
    let found = find_pattern(p, s);
    assert(founds(found@).len() == found@.len());
    found.len() > 0
}

/// The place of a file in the order of loading.
pub fn load_rank(basename: &str) -> (r: (i32, i32))
    ensures
        r == load_rank_of(basename@),
{
    proof {
        reveal_strlit("_");
    }
    let b = replace(basename, "_", " ");
    let s = b.as_str();
    let tape: i32 = match find_medium(s, Pattern::TapeDigit, Pattern::TapeLetter) {
        Some(n) => n,
        None => match find_medium(s, Pattern::DiskDigit, Pattern::DiskLetter) {
            Some(n) => n,
            None => match find_medium(s, Pattern::PartDigit, Pattern::PartLetter) {
                Some(n) => n,
                None => 1,
            },
        },
    };
    let side: i32 = match find_medium(s, Pattern::SideDigit, Pattern::SideLetter) {
        Some(n) => n,
        None => if is_found(Pattern::Start, s) {
            1
        } else if is_found(Pattern::End, s) {
            3
        } else {
            0
        },
    };
    (tape, side)
}

// ---- the files of the collection ------------------------------------------------------------------------

/// The name has the extension of an image.
pub open spec fn is_image_name(name: Seq<char>) -> bool {
    let n = lowered(name);
    ends(n, ".d64"@) || ends(n, ".d71"@) || ends(n, ".d81"@) || ends(n, ".t64"@) || ends(n, ".tap"@)
        || ends(n, ".crt"@) || ends(n, ".g64"@) || ends(n, ".nib"@) || ends(n, ".p00"@) || ends(
        n,
        ".x64"@,
    )
}

/// Whether a name has the extension of an image.
pub fn has_image_ext(name: &str) -> (r: bool)
    ensures
        r == is_image_name(name@),
{
    let n = to_lowercase(name);
    let s = n.as_str();
    ends_with(s, ".d64") || ends_with(s, ".d71") || ends_with(s, ".d81") || ends_with(s, ".t64")
        || ends_with(s, ".tap") || ends_with(s, ".crt") || ends_with(s, ".g64") || ends_with(
        s,
        ".nib",
    ) || ends_with(s, ".p00") || ends_with(s, ".x64")
}

/// An image in the collection.
#[derive(Debug)]
pub struct LocalFile {
    pub path: String,
    /// The key of its game.
    pub key: String,
    /// Its place in the order of loading.
    pub tape: i32,
    pub side: i32,
    /// The flags in its name, and the length of the name in bytes.
    pub flags: usize,
    pub length: usize,
}

/// An image in the collection.
#[verifier::ext_equal]
pub struct Image {
    pub path: Seq<char>,
    pub key: Seq<char>,
    pub tape: i32,
    pub side: i32,
    pub flags: nat,
    pub length: nat,
}

impl View for LocalFile {
    type V = Image;

    open spec fn view(&self) -> Image {
        Image {
            path: self.path@,
            key: self.key@,
            tape: self.tape,
            side: self.side,
            flags: self.flags as nat,
            length: self.length as nat,
        }
    }
}

pub open spec fn images(v: Seq<LocalFile>) -> Seq<Image> {
    v.map_values(|f: LocalFile| f@)
}

pub open spec fn image_of(path: Seq<char>, name: Seq<char>) -> Image {
    Image {
        path,
        key: file_key_of(name),
        tape: load_rank_of(name).0,
        side: load_rank_of(name).1,
        flags: count_of(name, '['),
        length: encode_utf8(name).len(),
    }
}

/// The image that a file of the collection is, if it is one.
pub fn local_file(path: &str, name: &str) -> (r: Option<LocalFile>)
    ensures
        match r {
            Some(f) => is_image_name(name@) && f@ == image_of(path@, name@),
            None => !is_image_name(name@),
        },
{
    if !has_image_ext(name) {
        return None;
    }
    let (tape, side): (i32, i32) = load_rank(name);
    Some(
        LocalFile {
            path: path.to_owned(),
            key: file_key(name),
            tape,
            side,
            flags: count(name, '['),
            length: name.as_bytes().len(),
        },
    )
}

/// `a` is booted before `b`: by tape, side, flags and length in turn.
pub open spec fn boots_before(a: Image, b: Image) -> bool {
    if a.tape != b.tape {
        a.tape < b.tape
    } else if a.side != b.side {
        a.side < b.side
    } else if a.flags != b.flags {
        a.flags < b.flags
    } else {
        a.length < b.length
    }
}

/// The image of a game to boot: the first of the lowest.
pub open spec fn boot_image(ims: Seq<Image>, key: Seq<char>) -> Option<Image>
    decreases ims.len(),
{
    if ims.len() == 0 {
        None
    } else {
        let init = boot_image(ims.drop_last(), key);
        let im = ims.last();
        if im.key != key {
            init
        } else {
            match init {
                Some(b) => if boots_before(im, b) {
                    Some(im)
                } else {
                    init
                },
                None => Some(im),
            }
        }
    }
}

fn precedes(a: &LocalFile, b: &LocalFile) -> (r: bool)
    ensures
        r == boots_before(a@, b@),
{
    if a.tape != b.tape {
        a.tape < b.tape
    } else if a.side != b.side {
        a.side < b.side
    } else if a.flags != b.flags {
        a.flags < b.flags
    } else {
        a.length < b.length
    }
}

/// The image of a game to boot: lowest tape and side, then fewest flags, then
/// shortest name.
pub fn pick(files: &Vec<LocalFile>, key: &str) -> (r: Option<usize>)
    ensures
        match r {
            Some(i) => i < files@.len() && boot_image(images(files@), key@) == Some(
                files@[i as int]@,
            ),
            None => boot_image(images(files@), key@) is None,
        },
{
    let ghost all = images(files@);
    let mut best: Option<usize> = None;
    let mut i: usize = 0;
    while i < files.len()
        invariant
            all == images(files@),
            i <= files@.len(),
            match best {
                Some(b) => b < i && boot_image(all.take(i as int), key@) == Some(
                    files@[b as int]@,
                ),
                None => boot_image(all.take(i as int), key@) is None,
            },
        decreases files@.len() - i,
    {
        proof {
            assert(all.take(i + 1).drop_last() =~= all.take(i as int));
            assert(all[i as int] == files@[i as int]@);
        }
        if same(files[i].key.as_str(), key) {
            best = match best {
                Some(b) => if precedes(&files[i], &files[b]) {
                    Some(i)
                } else {
                    Some(b)
                },
                None => Some(i),
            };
        }
        i += 1;
    }
    assert(all.take(i as int) =~= all);
    best
}

// ---- the index --------------------------------------------------------------------------------------------

/// Where a game is: a download, an image of the collection, or only in the archive.
pub open spec fn whereabouts(
    ims: Seq<Image>,
    downloaded: Entries,
    canon: Seq<char>,
    ident: Seq<char>,
) -> (Seq<char>, Seq<char>) {
    match lookup(downloaded, ident) {
        Some(path) => ("local"@, path),
        None => match boot_image(ims, canon) {
            Some(im) => ("local"@, im.path),
            None => ("available"@, "ia"@),
        },
    }
}

/// A title as it is shown: with its rating behind a star, where it has one.
pub open spec fn shown(title: Seq<char>, rating: Seq<char>) -> Seq<char> {
    if rating == "0"@ || rating.len() == 0 {
        title
    } else {
        title + "   \u{2605}"@ + rating
    }
}

/// The record of a game in the index, from its record in the ranked list (key,
/// rating, downloads, genre, identifier, title); short records give none.
pub open spec fn index_record(
    ims: Seq<Image>,
    downloaded: Entries,
    line: Seq<char>,
) -> Option<Seq<Seq<char>>> {
    let f = split_n(line, '\t', 6);
    if f.len() < 6 {
        None
    } else {
        let w = whereabouts(ims, downloaded, f[0], f[4]);
        Some(seq![shown(f[5], f[1]), w.0, w.1, f[5], f[5], f[4], f[3], f[2]])
    }
}

/// The records of the index.
pub open spec fn index_records(
    ims: Seq<Image>,
    downloaded: Entries,
    ls: Seq<Seq<char>>,
) -> Seq<Seq<Seq<char>>>
    decreases ls.len(),
{
    if ls.len() == 0 {
        Seq::empty()
    } else {
        let init = index_records(ims, downloaded, ls.drop_last());
        match index_record(ims, downloaded, ls.last()) {
            Some(r) => init.push(r),
            None => init,
        }
    }
}

/// How many of the records are of games on disk.
pub open spec fn local_count(rs: Seq<Seq<Seq<char>>>) -> nat
    decreases rs.len(),
{
    if rs.len() == 0 {
        0
    } else {
        local_count(rs.drop_last()) + if rs.last()[1] == "local"@ {
            1nat
        } else {
            0nat
        }
    }
}

/// The text of an index, and what is in it.
#[derive(Debug)]
pub struct Index {
    pub text: String,
    pub n_local: usize,
    pub n_avail: usize,
}

fn locate(
    files: &Vec<LocalFile>,
    downloaded: &Vec<(String, String)>,
    canon: &str,
    ident: &str,
) -> (r: (bool, String))
    ensures
        ({
            let w = whereabouts(images(files@), entries(downloaded@), canon@, ident@);
            &&& r.0 == (w.0 == "local"@)
            &&& w.0 == if r.0 {
                "local"@
            } else {
                "available"@
            }
            &&& w.1 == r.1@
        }),
{
    proof {
        reveal_strlit("local");
        reveal_strlit("available");
        assert("local"@.len() != "available"@.len());
    }
    match get(downloaded, ident) {
        Some(p) => (true, p),
        None => match pick(files, canon) {
            Some(i) => (true, files[i].path.clone()),
            None => (false, "ia".to_string()),
        },
    }
}

fn show(title: &str, rating: &str) -> (r: String)
    ensures
        r@ == shown(title@, rating@),
{
    if same(rating, "0") || rating.is_empty() {
        title.to_owned()
    } else {
        append(append(title, "   \u{2605}").as_str(), rating)
    }
}

/// Builds the index from the text of the ranked list, the images of the collection
/// and what was downloaded.
pub fn build(
    ia_text: &str,
    files: &Vec<LocalFile>,
    downloaded: &Vec<(String, String)>,
) -> (r: Index)
    ensures
        ({
            let rs = index_records(images(files@), entries(downloaded@), lines_of(ia_text@));
            &&& r.text@ == table_text(rs)
            &&& r.n_local == local_count(rs)
            &&& r.n_local + r.n_avail == rs.len()
        }),
{
    let ls = lines(ia_text);
    let ghost all = texts(ls@);
    let ghost ims = images(files@);
    let ghost down = entries(downloaded@);
    let mut rs: Vec<Vec<String>> = Vec::new();
    let mut n_local: usize = 0;
    let mut n_avail: usize = 0;
    let mut i: usize = 0;
    assert(fields_view(rs@) =~= index_records(ims, down, all.take(0)));
    assert(fields_view(rs@).len() == 0);
    while i < ls.len()
        invariant
            all == texts(ls@),
            ims == images(files@),
            down == entries(downloaded@),
            i <= ls@.len(),
            fields_view(rs@) == index_records(ims, down, all.take(i as int)),
            n_local == local_count(fields_view(rs@)),
            n_local + n_avail == rs@.len(),
            rs@.len() <= i,
        decreases ls@.len() - i,
    {
        proof {
            assert(all.take(i + 1).drop_last() =~= all.take(i as int));
            assert(all[i as int] == ls@[i as int]@);
        }
        let f = splitn(ls[i].as_str(), '\t', 6);
        assert(texts(f@).len() == f@.len());
        if f.len() >= 6 {
            proof {
                assert forall|k: int| 0 <= k < 6 implies texts(f@)[k] == (#[trigger] f@[k])@ by {}
            }
            let w = locate(files, downloaded, f[0].as_str(), f[4].as_str());
            let status = if w.0 {
                "local".to_string()
            } else {
                "available".to_string()
            };
            let mut rec: Vec<String> = Vec::new();
            rec.push(show(f[5].as_str(), f[1].as_str()));
            rec.push(status);
            rec.push(w.1);
            rec.push(f[5].clone());
            rec.push(f[5].clone());
            rec.push(f[4].clone());
            rec.push(f[3].clone());
            rec.push(f[2].clone());
            proof {
                let rv = texts(rec@);
                assert(rv =~= index_record(ims, down, all[i as int])->0);
                assert(fields_view(rs@.push(rec)) =~= fields_view(rs@).push(rv));
                assert(fields_view(rs@).push(rv).drop_last() =~= fields_view(rs@));
                assert(w.0 == (rv[1] == "local"@));
            }
            rs.push(rec);
            if w.0 {
                n_local += 1;
            } else {
                n_avail += 1;
            }
        }
        i += 1;
    }
    assert(all.take(i as int) =~= all);
    assert(fields_view(rs@).len() == rs@.len());
    Index { text: write_records(&rs), n_local, n_avail }
}

// ---- laws ---------------------------------------------------------------------------------------------------

proof fn lemma_boot_image(ims: Seq<Image>, key: Seq<char>)
    ensures
        match boot_image(ims, key) {
            Some(b) => ims.contains(b) && b.key == key && forall|i: int|
                0 <= i < ims.len() && (#[trigger] ims[i]).key == key ==> !boots_before(ims[i], b),
            None => forall|i: int| 0 <= i < ims.len() ==> (#[trigger] ims[i]).key != key,
        },
    decreases ims.len(),
{
    if ims.len() > 0 {
        let init = ims.drop_last();
        lemma_boot_image(init, key);
        assert(ims[ims.len() - 1] == ims.last());
        match boot_image(init, key) {
            Some(b) => {
                let k = choose|k: int| 0 <= k < init.len() && init[k] == b;
                assert(ims[k] == b);
            },
            None => {},
        }
        assert forall|i: int| 0 <= i < ims.len() && (#[trigger] ims[i]).key == key implies (
        boot_image(ims, key) is Some && !boots_before(ims[i], boot_image(ims, key)->0)) by {
            if i < init.len() {
                assert(init[i] == ims[i]);
            }
        }
        assert forall|i: int| 0 <= i < ims.len() && boot_image(ims, key) is None implies (
        #[trigger] ims[i]).key != key by {
            if i < init.len() {
                assert(init[i] == ims[i]);
            }
        }
    }
}

/// What is booted is an image of that game, and none of its images comes before
/// it; there is something to boot if there is such an image.
pub proof fn law_lowest_image_boots(ims: Seq<Image>, key: Seq<char>)
    ensures
        match boot_image(ims, key) {
            Some(b) => ims.contains(b) && b.key == key && forall|i: int|
                0 <= i < ims.len() && (#[trigger] ims[i]).key == key ==> !boots_before(ims[i], b),
            None => forall|i: int| 0 <= i < ims.len() ==> (#[trigger] ims[i]).key != key,
        },
{
    lemma_boot_image(ims, key);
}

/// A game that the index calls local was downloaded or has an image.
pub proof fn law_local_games_are_there(
    ims: Seq<Image>,
    downloaded: Entries,
    canon: Seq<char>,
    ident: Seq<char>,
)
    ensures
        (whereabouts(ims, downloaded, canon, ident).0 == "local"@) == (lookup(downloaded, ident)
            is Some || exists|i: int| 0 <= i < ims.len() && (#[trigger] ims[i]).key == canon),
{
    reveal_strlit("local");
    reveal_strlit("available");
    assert("local"@.len() != "available"@.len());
    lemma_boot_image(ims, canon);
    match boot_image(ims, canon) {
        Some(b) => {
            let k = choose|k: int| 0 <= k < ims.len() && ims[k] == b;
            assert(ims[k].key == canon);
        },
        None => {},
    }
}

/// The row that a record of the index is.
pub open spec fn row_of(r: Seq<Seq<char>>) -> Game {
    Game {
        display: r[0],
        status: r[1],
        target: r[2],
        title: r[3],
        query: r[4],
        ident: r[5],
        genre: r[6],
        downloads: count_in(r[7]),
    }
}

proof fn lemma_rows_of(rs: Seq<Seq<Seq<char>>>)
    requires
        forall|i: int| 0 <= i < rs.len() ==> (#[trigger] rs[i]).len() == 8,
    ensures
        games_of_records(rs) == rs.map_values(|r: Seq<Seq<char>>| row_of(r)),
    decreases rs.len(),
{
    if rs.len() > 0 {
        let init = rs.drop_last();
        assert forall|i: int| 0 <= i < init.len() implies (#[trigger] init[i]).len() == 8 by {
            assert(rs[i].len() == 8);
        }
        lemma_rows_of(init);
        assert(rs[rs.len() - 1].len() == 8);
        assert(game_of_record(rs.last()) == Some(row_of(rs.last())));
        assert(games_of_records(rs) =~= rs.map_values(|r: Seq<Seq<char>>| row_of(r)));
    } else {
        assert(games_of_records(rs) =~= rs.map_values(|r: Seq<Seq<char>>| row_of(r)));
    }
}

proof fn lemma_record_lengths(ims: Seq<Image>, downloaded: Entries, ls: Seq<Seq<char>>)
    ensures
        forall|i: int|
            0 <= i < index_records(ims, downloaded, ls).len() ==> (#[trigger] index_records(
                ims,
                downloaded,
                ls,
            )[i]).len() == 8,
    decreases ls.len(),
{
    if ls.len() > 0 {
        lemma_record_lengths(ims, downloaded, ls.drop_last());
        let init = index_records(ims, downloaded, ls.drop_last());
        let all = index_records(ims, downloaded, ls);
        assert forall|i: int| 0 <= i < all.len() implies (#[trigger] all[i]).len() == 8 by {
            if i < init.len() {
                assert(all[i] == init[i]);
            }
        }
    }
}

/// The games of an index that is written come back, in order, when it is read.
pub proof fn law_index_comes_back(ims: Seq<Image>, downloaded: Entries, ls: Seq<Seq<char>>)
    requires
        forall|i: int|
            0 <= i < index_records(ims, downloaded, ls).len() ==> fits_record(
                #[trigger] index_records(ims, downloaded, ls)[i],
            ),
    ensures
        games_of_text(table_text(index_records(ims, downloaded, ls))) == index_records(
            ims,
            downloaded,
            ls,
        ).map_values(|r: Seq<Seq<char>>| row_of(r)),
{
    let rs = index_records(ims, downloaded, ls);
    law_records_come_back(rs);
    lemma_record_lengths(ims, downloaded, ls);
    lemma_rows_of(rs);
}

proof fn lemma_few_parts(s: Seq<char>, c: char, n: nat)
    requires
        split_all(s, c).len() <= n,
    ensures
        split_n(s, c, n) == split_all(s, c),
    decreases s.len(),
{
    let i = char_from(s, c, 0);
    if i < s.len() {
        lemma_char_from(s, c, 0);
        let rest = split_all(s.skip(i + 1), c);
        assert(split_all(s, c) == seq![s.take(i)] + rest);
        lemma_some_part(s.skip(i + 1), c);
        lemma_few_parts(s.skip(i + 1), c, (n - 1) as nat);
    }
}

proof fn lemma_some_part(s: Seq<char>, c: char)
    ensures
        split_all(s, c).len() > 0,
{
}

proof fn lemma_all_listed(ims: Seq<Image>, downloaded: Entries, ls: Seq<Seq<char>>)
    requires
        forall|k: int| 0 <= k < ls.len() ==> index_record(ims, downloaded, #[trigger] ls[k]) is Some,
    ensures
        index_records(ims, downloaded, ls).len() == ls.len(),
        forall|k: int|
            0 <= k < ls.len() ==> Some(#[trigger] index_records(ims, downloaded, ls)[k])
                == index_record(ims, downloaded, ls[k]),
    decreases ls.len(),
{
    if ls.len() > 0 {
        let init = ls.drop_last();
        assert forall|k: int| 0 <= k < init.len() implies index_record(
            ims,
            downloaded,
            #[trigger] init[k],
        ) is Some by {
            assert(init[k] == ls[k]);
        }
        lemma_all_listed(ims, downloaded, init);
        assert(index_record(ims, downloaded, ls[ls.len() - 1]) is Some);
        assert forall|k: int| 0 <= k < ls.len() implies Some(
            #[trigger] index_records(ims, downloaded, ls)[k],
        ) == index_record(ims, downloaded, ls[k]) by {
            if k < init.len() {
                assert(index_records(ims, downloaded, ls)[k] == index_records(
                    ims,
                    downloaded,
                    init,
                )[k]);
                assert(init[k] == ls[k]);
            }
        }
    }
}

/// Every game of the archive's ranked list is in the index that is built from it, in the
/// same place, with its title, its identifier, and where it is.
pub proof fn law_ranked_games_are_listed(
    ims: Seq<Image>,
    downloaded: Entries,
    ks: Seq<Known>,
    ls: Seq<Leader>,
    i: int,
)
    requires
        0 <= i < ls.len(),
        forall|k: int|
            0 <= k < ls.len() ==> fits_record(ranked_record(ks, #[trigger] ranked(ks, ls)[k])),
    ensures
        ({
            let rs = index_records(ims, downloaded, lines_of(ia_index_of(ks, ls)));
            let game = ranked(ks, ls)[i];
            let w = whereabouts(ims, downloaded, game.canon, game.ident);
            &&& rs.len() == ls.len()
            &&& rs[i][1] == w.0
            &&& rs[i][2] == w.1
            &&& rs[i][3] == game.display
            &&& rs[i][5] == game.ident
        }),
{
    lemma_order_below(ls.len(), rank_keys(ks, ls));
    let all = ranked(ks, ls);
    let recs = all.map_values(|l: Leader| ranked_record(ks, l));
    assert(all.len() == ls.len());
    assert forall|k: int| 0 <= k < recs.len() implies fits_record(#[trigger] recs[k]) by {
        assert(fits_record(ranked_record(ks, all[k])));
    }
    law_records_come_back(recs);
    let text = ia_index_of(ks, ls);
    let lines = lines_of(text);
    assert(records_of(text).len() == lines.len());
    assert forall|k: int| 0 <= k < lines.len() implies index_record(
        ims,
        downloaded,
        #[trigger] lines[k],
    ) is Some && split_n(lines[k], '\t', 6) == recs[k] by {
        assert(records_of(text)[k] == split_all(lines[k], '\t'));
        assert(recs[k].len() == 6);
        lemma_few_parts(lines[k], '\t', 6);
    }
    lemma_all_listed(ims, downloaded, lines);
    let rs = index_records(ims, downloaded, lines);
    assert(Some(rs[i]) == index_record(ims, downloaded, lines[i]));
    assert(split_n(lines[i], '\t', 6) == recs[i]);
}

// ---- what is booted, and what a line says --------------------------------------------------------------------

/// Of the images of a game the one is booted with the least number of tape or disk; among
/// those the one with the least side, then with the fewest flags in its name, then with the
/// shortest name. It is one of the game's images.
pub proof fn law_the_first_disk_boots(ims: Seq<Image>, key: Seq<char>, i: int)
    requires
        0 <= i < ims.len(),
        ims[i].key == key,
    ensures
        boot_image(ims, key) matches Some(b) && {
            &&& b.key == key
            &&& exists|k: int| 0 <= k < ims.len() && #[trigger] ims[k] == b
            &&& b.tape <= ims[i].tape
            &&& b.tape == ims[i].tape ==> b.side <= ims[i].side
            &&& b.tape == ims[i].tape && b.side == ims[i].side ==> b.flags <= ims[i].flags
            &&& b.tape == ims[i].tape && b.side == ims[i].side && b.flags == ims[i].flags ==> b.length
                <= ims[i].length
        },
{
    lemma_boot_image(ims, key);
    assert(ims[i].key == key);
    let b = boot_image(ims, key)->0;
    let k = choose|k: int| 0 <= k < ims.len() && ims[k] == b;
    assert(ims[k] == b);
}

/// Of images that come to the same in all of this the first in the list is booted.
pub proof fn law_the_first_of_equals_boots(ims: Seq<Image>, key: Seq<char>, i: int, j: int)
    requires
        0 <= i < j < ims.len(),
        ims[i].key == key,
        ims[i].tape == ims[j].tape,
        ims[i].side == ims[j].side,
        ims[i].flags == ims[j].flags,
        ims[i].length == ims[j].length,
        boot_image(ims, key) == Some(ims[j]),
    ensures
        exists|k: int| 0 <= k < j && #[trigger] ims[k] == ims[j],
    decreases ims.len(),
{
    let init = ims.drop_last();
    lemma_boot_image(init, key);
    assert(init[i] == ims[i]);
    assert(init[i].key == key);
    if j < init.len() {
        assert(init[j] == ims[j]);
        if boot_image(init, key) == Some(ims[j]) {
            law_the_first_of_equals_boots(init, key, i, j);
            let k = choose|k: int| 0 <= k < j && #[trigger] init[k] == init[j];
            assert(ims[k] == ims[j]);
        } else {
            let b = boot_image(init, key)->0;
            assert(ims.last() == ims[j]);
            assert(init[j].key == key);
            assert(!boots_before(init[j], b));
        }
    } else {
        let b = boot_image(init, key)->0;
        assert(!boots_before(init[i], b));
        assert(b == ims[j]);
        let k = choose|k: int| 0 <= k < init.len() && init[k] == b;
        assert(ims[k] == b);
    }
}

/// The image of a file says what its name says: the key of the game, its place in the order
/// of loading, its opening brackets and its length in bytes.
pub proof fn law_images_say_what_names_say(path: Seq<char>, name: Seq<char>)
    ensures
        ({
            let im = image_of(path, name);
            &&& im.path == path
            &&& im.key == file_key_of(name)
            &&& (im.tape, im.side) == load_rank_of(name)
            &&& im.flags == name.filter(|c: char| c == '[').len()
            &&& im.length == encode_utf8(name).len()
        }),
{
    crate::text::law_counts_are_of_occurrences(name, '[');
}

/// A game that was downloaded is where it was downloaded to; another is where its image is;
/// and one without either is only in the archive.
pub proof fn law_downloads_come_before_the_collection(
    ims: Seq<Image>,
    downloaded: Entries,
    canon: Seq<char>,
    ident: Seq<char>,
)
    ensures
        ({
            let w = whereabouts(ims, downloaded, canon, ident);
            &&& lookup(downloaded, ident) matches Some(path) ==> w == ("local"@, path)
            &&& lookup(downloaded, ident) is None && boot_image(ims, canon) is Some ==> w == (
                "local"@,
                boot_image(ims, canon)->0.path,
            )
            &&& lookup(downloaded, ident) is None && (forall|i: int|
                0 <= i < ims.len() ==> (#[trigger] ims[i]).key != canon) ==> w == ("available"@, "ia"@)
        }),
{
    lemma_boot_image(ims, canon);
    if let Some(b) = boot_image(ims, canon) {
        let k = choose|k: int| 0 <= k < ims.len() && ims[k] == b;
        assert(ims[k].key == canon);
    }
}

/// A line of the ranked list with its six fields gives a record: the title with the rating
/// behind a star, unless that is zero or missing, where the game is, the title to show and to
/// seek, the identifier, the genre and the downloads.
pub proof fn law_records_of_the_index(
    ims: Seq<Image>,
    downloaded: Entries,
    f: Seq<Seq<char>>,
)
    requires
        f.len() == 6,
        forall|i: int| 0 <= i < 6 ==> crate::table::fits_field(#[trigger] f[i]),
    ensures
        index_record(ims, downloaded, crate::table::line_of(f)) matches Some(r) && {
            let w = whereabouts(ims, downloaded, f[0], f[4]);
            &&& r.len() == 8
            &&& f[1] == "0"@ || f[1].len() == 0 ==> r[0] == f[5]
            &&& f[1] != "0"@ && f[1].len() > 0 ==> r[0] == f[5] + "   \u{2605}"@ + f[1]
            &&& r[1] == w.0 && r[2] == w.1
            &&& r[3] == f[5] && r[4] == f[5]
            &&& r[5] == f[4] && r[6] == f[3] && r[7] == f[2]
        },
{
    crate::table::law_fields_come_back(f);
    lemma_few_parts(crate::table::line_of(f), '\t', 6);
}

// ---- the order of loading ----------------------------------------------------------------------------------------

/// The number of a tape counts before that of a disk, and that of a disk before that of a
/// part; without any a file is the first.
pub proof fn law_tapes_count_before_disks(name: Seq<char>)
    ensures
        ({
            let b = replaced(name, "_"@, " "@);
            let tape = medium_in(b, Pattern::TapeDigit, Pattern::TapeLetter);
            let disk = medium_in(b, Pattern::DiskDigit, Pattern::DiskLetter);
            let part = medium_in(b, Pattern::PartDigit, Pattern::PartLetter);
            let n = load_rank_of(name).0;
            &&& tape is Some ==> n == tape->0
            &&& tape is None && disk is Some ==> n == disk->0
            &&& tape is None && disk is None && part is Some ==> n == part->0
            &&& tape is None && disk is None && part is None ==> n == 1
        }),
{
}

/// A side that is named counts; without one the start of a game is before its end, and what
/// is neither comes before both.
pub proof fn law_sides_count_before_words(name: Seq<char>)
    ensures
        ({
            let b = replaced(name, "_"@, " "@);
            let side = medium_in(b, Pattern::SideDigit, Pattern::SideLetter);
            let start = matches_of(Pattern::Start, b).len() > 0;
            let end = matches_of(Pattern::End, b).len() > 0;
            let n = load_rank_of(name).1;
            &&& side is Some ==> n == side->0
            &&& side is None && start ==> n == 1
            &&& side is None && !start && end ==> n == 3
            &&& side is None && !start && !end ==> n == 0
        }),
{
}

/// A medium is numbered by its figure, or by the place of its letter in the alphabet, in
/// capitals or not.
pub proof fn law_media_are_numbered(
    digits: Seq<(int, int, Option<Seq<char>>)>,
    letters: Seq<(int, int, Option<Seq<char>>)>,
    k: u32,
)
    requires
        k < 26,
    ensures
        ({
            let small = (97 + k) as char;
            let capital = (65 + k) as char;
            let none = Seq::<(int, int, Option<Seq<char>>)>::empty();
            &&& digits.len() > 0 ==> medium_number(digits, letters) == small_number(digits[0].2)
            &&& letters.len() > 0 && letters[0].2 == Some(seq![small]) ==> medium_number(none, letters)
                == Some((k + 1) as i32)
            &&& letters.len() > 0 && letters[0].2 == Some(seq![capital]) ==> medium_number(
                none,
                letters,
            ) == Some((k + 1) as i32)
            &&& medium_number(none, none) is None
        }),
{
    let small = (97 + k) as char;
    let capital = (65 + k) as char;
    assert(small as u32 == 97 + k && capital as u32 == 65 + k);
    assert('a' as u32 == 97 && 'A' as u32 == 65 && 'Z' as u32 == 90);
}

/// The files of a collection that are images: by their ending, in small letters or capitals.
pub proof fn law_images_are_known_by_their_ending(name: Seq<char>)
    ensures
        is_image_name(name) <==> exists|e: Seq<char>| #[trigger]
            ends(lowered(name), e) && (e == ".d64"@ || e == ".d71"@ || e == ".d81"@ || e == ".g64"@ || e
                == ".x64"@ || e == ".nib"@ || e == ".p00"@ || e == ".t64"@ || e == ".tap"@ || e
                == ".crt"@),
{
}

/// A bracket ends the title: what stands before the first has none, and what is cut off
/// begins with one.
pub proof fn law_titles_end_at_a_bracket(s: Seq<char>)
    ensures
        ({
            let t = before_bracket(s);
            let n = t.len() as int;
            &&& n <= s.len() && t == s.take(n)
            &&& forall|i: int| 0 <= i < n ==> #[trigger] t[i] != '(' && t[i] != '['
            &&& n < s.len() ==> s[n] == '(' || s[n] == '['
        }),
{
    lemma_first_bracket(s, 0);
}

proof fn lemma_first_bracket(s: Seq<char>, from: int)
    requires
        0 <= from <= s.len(),
    ensures
        from <= first_bracket(s, from) <= s.len(),
        forall|i: int| from <= i < first_bracket(s, from) ==> #[trigger] s[i] != '(' && s[i] != '[',
        first_bracket(s, from) < s.len() ==> s[first_bracket(s, from)] == '(' || s[first_bracket(
            s,
            from,
        )] == '[',
    decreases s.len() - from,
{
    if from < s.len() && s[from] != '(' && s[from] != '[' {
        lemma_first_bracket(s, from + 1);
    }
}

/// A name in which nothing else is found has the key of what stands before its ending, with
/// spaces for underscores and up to the first bracket.
pub proof fn law_keys_of_files(stem: Seq<char>, ext: Seq<char>)
    requires
        matches_of(Pattern::Extension, stem + ext) == seq![
            (stem.len() as int, (stem.len() + ext.len()) as int, None::<Seq<char>>),
        ],
        ({
            let t = before_bracket(replaced(stem, "_"@, " "@));
            &&& matches_of(Pattern::Year, t).len() == 0
            &&& matches_of(Pattern::Descriptor, t).len() == 0
            &&& matches_of(Pattern::Version, t).len() == 0
        }),
    ensures
        file_key_of(stem + ext) == norm_of(before_bracket(replaced(stem, "_"@, " "@))),
{
    let name = stem + ext;
    let ms = matches_of(Pattern::Extension, name);
    assert(name.take(ms[0].0) + name.skip(ms[0].1) =~= stem);
    let t = before_bracket(replaced(stem, "_"@, " "@));
    let none = Seq::<(int, int, Option<Seq<char>>)>::empty();
    assert(matches_of(Pattern::Version, t) =~= none);
    crate::pattern::law_no_match_no_change(t, Seq::new(none.len(), |i: int| ""@));
}

/// A year ends the title of a file: what stands up to the character before it is kept.
pub proof fn law_years_end_titles(s: Seq<char>, at: int, end: int)
    requires
        0 <= at < end <= s.len(),
    ensures
        before_year(s, seq![(at, end, None::<Seq<char>>)]) == s.take(at + 1),
        before_year(s, Seq::empty()) == s,
        without_first(s, seq![(at, end, None::<Seq<char>>)]) == s.take(at) + s.skip(end),
        without_first(s, Seq::empty()) == s,
{
}

} // verus!
