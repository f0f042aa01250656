//! Patterns: the regular expressions that titles, file names and pages are read
//! with, and what is done with their matches. Matching itself is the `regex`
//! crate's.

use crate::text::{begins, chars_of, string_range, texts};
use regex::Regex;
use vstd::prelude::*;

verus! {

/// The regular expressions of this library.
#[derive(Clone, Copy, PartialEq, Eq, Structural, Debug)]
pub enum Pattern {
    /// An abbreviated word of a title.
    Abbreviation,
    /// A roman numeral up to ten.
    Roman,
    /// An article.
    Article,
    /// What parts a title from its subtitle.
    Subtitle,
    /// Where the details in brackets begin, with the space before them.
    Details,
    /// Where the details in brackets begin.
    Bracket,
    /// Where the details in parentheses begin, with the space before them.
    Paren,
    /// A version number.
    Version,
    /// A word in lower case.
    LowerWord,
    /// A word.
    Word,
    /// A disk and its number.
    DiskNumber,
    /// A side and its number or letter.
    SideNumber,
    /// A disk, its number and the number of them.
    DiskOf,
    /// A side.
    AnySide,
    /// What a disk of a release is for.
    Role,
    /// White space.
    Spaces,
    /// The number of disks that there are.
    OfCount,
    /// A link to an archive.
    ZipLink,
    /// A file name's extension.
    Extension,
    /// A year with text before it.
    Year,
    /// A file name's subtitle or medium.
    Descriptor,
    /// A tape by number.
    TapeDigit,
    /// A tape by letter.
    TapeLetter,
    /// A disk by number.
    DiskDigit,
    /// A disk by letter.
    DiskLetter,
    /// A part by number.
    PartDigit,
    /// A part by letter.
    PartLetter,
    /// A side by number.
    SideDigit,
    /// A side by letter.
    SideLetter,
    /// The start of a game.
    Start,
    /// The end of a game.
    End,
    /// A game's folder in the tape archive.
    TapeFolder,
    /// A link to a tape image.
    TapeLink,
    /// The year in parentheses, with the space before it.
    TapeYear,
}

/// How a pattern is written.
pub open spec fn pattern_text(p: Pattern) -> Seq<char> {
    match p {
        Pattern::Abbreviation => r"\b(jr|bros|intl|vs|n)\b\.?"@,
        Pattern::Roman => r"\b(i{1,3}|iv|v|vi{0,3}|ix|x)\b"@,
        Pattern::Article => r"\b(the|a)\b"@,
        Pattern::Subtitle => r":| - "@,
        Pattern::Details => r"\s*[\(\[]"@,
        Pattern::Bracket => r"[\(\[]"@,
        Pattern::Paren => r"\s*\("@,
        Pattern::Version => r"\bv\d+(\.\d+)*\b"@,
        Pattern::LowerWord => r"[a-z0-9]+"@,
        Pattern::Word => r"[A-Za-z0-9]+"@,
        Pattern::DiskNumber => r"disk\s*(\d+)"@,
        Pattern::SideNumber => r"side\s*([a-d1-4])"@,
        Pattern::DiskOf => r"disk\s*\d+\s*(of\s*\d+)?"@,
        Pattern::AnySide => r"side\s*[a-d0-9]\b"@,
        Pattern::Role => r"\b(boot|game|player\s*disk|scenario|data\s*disk|doc)\b"@,
        Pattern::Spaces => r"\s+"@,
        Pattern::OfCount => r"of\s*(\d+)"@,
        Pattern::ZipLink => r#"href="(//archive\.org/download/[^"]+\.zip)""#@,
        Pattern::Extension => r"(?i)\.[a-z0-9]{2,4}$"@,
        Pattern::Year => r"\S\s(?:19xx|19\d\d|20\d\d)(?:\s|$)"@,
        Pattern::Descriptor => r" - | (?:Side|Tape|Disk|Part) \d"@,
        Pattern::TapeDigit => r"(?i)\btape\s*([1-9])\b"@,
        Pattern::TapeLetter => r"(?i)\btape\s*([a-i])\b"@,
        Pattern::DiskDigit => r"(?i)\bdisk\s*([1-9])\b"@,
        Pattern::DiskLetter => r"(?i)\bdisk\s*([a-i])\b"@,
        Pattern::PartDigit => r"(?i)\bpart\s*([1-9])\b"@,
        Pattern::PartLetter => r"(?i)\bpart\s*([a-i])\b"@,
        Pattern::SideDigit => r"(?i)\bside\s*([1-9])\b"@,
        Pattern::SideLetter => r"(?i)\bside\s*([a-i])\b"@,
        Pattern::Start => r"(?i)\bstart\b"@,
        Pattern::End => r"(?i)\bend\b"@,
        Pattern::TapeFolder => r#"href="([^"/]+%5[bB][0-9]+%5[dD])/?""#@,
        Pattern::TapeLink => r#"(?i)href="([^"/?]+\.tap)""#@,
        Pattern::TapeYear => r"\s*\((?:\d{4}|19xx)"@,
    }
}

pub fn pattern_str(p: Pattern) -> (s: &'static str)
    ensures
        s@ == pattern_text(p),
{
    match p {
        Pattern::Abbreviation => r"\b(jr|bros|intl|vs|n)\b\.?",
        Pattern::Roman => r"\b(i{1,3}|iv|v|vi{0,3}|ix|x)\b",
        Pattern::Article => r"\b(the|a)\b",
        Pattern::Subtitle => r":| - ",
        Pattern::Details => r"\s*[\(\[]",
        Pattern::Bracket => r"[\(\[]",
        Pattern::Paren => r"\s*\(",
        Pattern::Version => r"\bv\d+(\.\d+)*\b",
        Pattern::LowerWord => r"[a-z0-9]+",
        Pattern::Word => r"[A-Za-z0-9]+",
        Pattern::DiskNumber => r"disk\s*(\d+)",
        Pattern::SideNumber => r"side\s*([a-d1-4])",
        Pattern::DiskOf => r"disk\s*\d+\s*(of\s*\d+)?",
        Pattern::AnySide => r"side\s*[a-d0-9]\b",
        Pattern::Role => r"\b(boot|game|player\s*disk|scenario|data\s*disk|doc)\b",
        Pattern::Spaces => r"\s+",
        Pattern::OfCount => r"of\s*(\d+)",
        Pattern::ZipLink => r#"href="(//archive\.org/download/[^"]+\.zip)""#,
        Pattern::Extension => r"(?i)\.[a-z0-9]{2,4}$",
        Pattern::Year => r"\S\s(?:19xx|19\d\d|20\d\d)(?:\s|$)",
        Pattern::Descriptor => r" - | (?:Side|Tape|Disk|Part) \d",
        Pattern::TapeDigit => r"(?i)\btape\s*([1-9])\b",
        Pattern::TapeLetter => r"(?i)\btape\s*([a-i])\b",
        Pattern::DiskDigit => r"(?i)\bdisk\s*([1-9])\b",
        Pattern::DiskLetter => r"(?i)\bdisk\s*([a-i])\b",
        Pattern::PartDigit => r"(?i)\bpart\s*([1-9])\b",
        Pattern::PartLetter => r"(?i)\bpart\s*([a-i])\b",
        Pattern::SideDigit => r"(?i)\bside\s*([1-9])\b",
        Pattern::SideLetter => r"(?i)\bside\s*([a-i])\b",
        Pattern::Start => r"(?i)\bstart\b",
        Pattern::End => r"(?i)\bend\b",
        Pattern::TapeFolder => r#"href="([^"/]+%5[bB][0-9]+%5[dD])/?""#,
        Pattern::TapeLink => r#"(?i)href="([^"/?]+\.tap)""#,
        Pattern::TapeYear => r"\s*\((?:\d{4}|19xx)",
    }
}

/// A compiled expression of the `regex` crate.
#[verifier::external_type_specification]
#[verifier::external_body]
pub struct ExRegex(Regex);

/// Why an expression of the `regex` crate does not compile.
#[verifier::external_type_specification]
#[verifier::external_body]
pub struct ExRegexError(regex::Error);

/// The text that an expression was compiled from.
pub uninterp spec fn regex_source(rx: Regex) -> Seq<char>;

/// Whether an expression compiles.
pub uninterp spec fn regex_compiles(source: Seq<char>) -> bool;

/// The matches of an expression in a text, from left to right: where each begins
/// and ends, counted in characters, and what its first group holds.
pub uninterp spec fn regex_matches(source: Seq<char>, text: Seq<char>) -> Seq<
    (int, int, Option<Seq<char>>),
>;

/// `regex::Regex::new`: whether it succeeds follows from the text, which the
/// compiled expression then stands for. The expressions of this library are well
/// formed.
#[verifier::external_body]
pub(crate) fn compile(source: &str) -> (r: Result<Regex, regex::Error>)
    ensures
        (r is Ok) == regex_compiles(source@),
        r is Ok ==> regex_source(r->Ok_0) == source@,
        (exists|p: Pattern| pattern_text(p) == source@) ==> r is Ok,
{
    Regex::new(source)
}

/// A match: the characters `start` up to `end` of the text, and what the first
/// group holds.
pub struct Found {
    pub start: usize,
    pub end: usize,
    pub group: Option<String>,
}

impl View for Found {
    type V = (int, int, Option<Seq<char>>);

    open spec fn view(&self) -> (int, int, Option<Seq<char>>) {
        (
            self.start as int,
            self.end as int,
            match self.group {
                Some(g) => Some(g@),
                None => None,
            },
        )
    }
}

pub open spec fn founds(v: Seq<Found>) -> Seq<(int, int, Option<Seq<char>>)> {
    v.map_values(|f: Found| f@)
}

/// Matches lie in a text of this length, one behind the other.
pub open spec fn in_order(ms: Seq<(int, int, Option<Seq<char>>)>, len: nat) -> bool {
    &&& forall|i: int| 0 <= i < ms.len() ==> 0 <= (#[trigger] ms[i]).0 <= ms[i].1 <= len
    &&& forall|i: int, j: int| 0 <= i < j < ms.len() ==> (#[trigger] ms[i]).1 <= (#[trigger] ms[j]).0
}

/// How many bytes a character takes in UTF-8.
pub open spec fn utf8_width(c: char) -> int {
    if (c as u32) < 0x80 {
        1
    } else if (c as u32) < 0x800 {
        2
    } else if (c as u32) < 0x10000 {
        3
    } else {
        4
    }
}

/// At which byte of a text its `k`-th character begins.
pub open spec fn byte_at(text: Seq<char>, k: int) -> int
    decreases k,
{
    if k <= 0 {
        0
    } else {
        byte_at(text, k - 1) + utf8_width(text[k - 1])
    }
}

/// A match: the bytes `start` up to `end` of the text, and what the first group holds.
pub struct Span {
    pub start: usize,
    pub end: usize,
    pub group: Option<String>,
}

/// A span is a match of a text.
pub open spec fn is_span(s: Span, text: Seq<char>, m: (int, int, Option<Seq<char>>)) -> bool {
    &&& s.start == byte_at(text, m.0)
    &&& s.end == byte_at(text, m.1)
    &&& m.2 == match s.group {
        Some(g) => Some(g@),
        None => None,
    }
}

/// Spans are the matches of a text, which lie in it one behind the other.
pub open spec fn are_spans(
    v: Seq<Span>,
    text: Seq<char>,
    ms: Seq<(int, int, Option<Seq<char>>)>,
) -> bool {
    &&& v.len() == ms.len()
    &&& in_order(ms, text.len())
    &&& forall|i: int| 0 <= i < ms.len() ==> is_span(#[trigger] v[i], text, ms[i])
}

/// `regex::Regex::captures_iter`: all the matches, which do not overlap and come from left
/// to right. Each is given by the bytes where it begins and ends, which are where characters
/// of the text begin or where it ends, and by what its first group holds.
#[verifier::external_body]
pub(crate) fn captures(rx: &Regex, text: &str) -> (r: Vec<Span>)
    ensures
        are_spans(r@, text@, regex_matches(regex_source(*rx), text@)),
{
    rx.captures_iter(text).map(
        |c| {
            let m = c.get(0).unwrap();
            let group = c.get(1).map(|g| g.as_str().to_string());
            Span { start: m.start(), end: m.end(), group }
        },
    ).collect()
}

proof fn lemma_bytes_grow(text: Seq<char>, i: int, j: int)
    requires
        0 <= i < j,
    ensures
        byte_at(text, i) < byte_at(text, j),
    decreases j - i,
{
    if i + 1 < j {
        lemma_bytes_grow(text, i, j - 1);
    }
}

fn char_width(c: char) -> (r: usize)
    ensures
        r == utf8_width(c),
{
    let n: u32 = c as u32;
    if n < 0x80 {
        1
    } else if n < 0x800 {
        2
    } else if n < 0x10000 {
        3
    } else {
        4
    }
}

/// Which character begins at a byte, looked for from one that begins at byte `at` on.
fn char_from_byte(v: &Vec<char>, from: usize, at: usize, byte: usize) -> (r: usize)
    requires
        from <= v@.len(),
        at == byte_at(v@, from as int),
        exists|k: int| from <= k <= v@.len() && #[trigger] byte_at(v@, k) == byte,
    ensures
        from <= r <= v@.len(),
        byte_at(v@, r as int) == byte,
{
    let ghost k = choose|k: int| from <= k <= v@.len() && #[trigger] byte_at(v@, k) == byte;
    let mut r: usize = from;
    let mut b: usize = at;
    let last: usize = v.len();
    while b < byte
        invariant
            from <= r <= k <= last,
            last == v@.len(),
            b == byte_at(v@, r as int),
            byte == byte_at(v@, k),
        decreases k - r,
    {
        proof {
            if r + 1 < k {
                lemma_bytes_grow(v@, r + 1, k);
            }
        }
        b += char_width(v[r]);
        r += 1;
    }
    proof {
        if r < k {
            lemma_bytes_grow(v@, r as int, k);
        }
    }
    r
}

proof fn lemma_same_byte(text: Seq<char>, i: int, j: int)
    requires
        0 <= i,
        0 <= j,
        byte_at(text, i) == byte_at(text, j),
    ensures
        i == j,
{
    if i < j {
        lemma_bytes_grow(text, i, j);
    } else if j < i {
        lemma_bytes_grow(text, j, i);
    }
}

/// All the matches of an expression in a text.
pub fn find_all(rx: &Regex, text: &str) -> (r: Vec<Found>)
    ensures
        founds(r@) == regex_matches(regex_source(*rx), text@),
        in_order(founds(r@), text@.len()),
{
    let v = chars_of(text);
    let spans = captures(rx, text);
    let ghost ms = regex_matches(regex_source(*rx), text@);
    let mut r: Vec<Found> = Vec::new();
    let mut from: usize = 0;
    let mut at: usize = 0;
    let mut i: usize = 0;
    assert(founds(r@) =~= ms.take(0));
    while i < spans.len()
        invariant
            v@ == text@,
            are_spans(spans@, text@, ms),
            i <= spans@.len(),
            from == if i == 0 {
                0
            } else {
                ms[i - 1].1
            },
            from <= v@.len(),
            at == byte_at(v@, from as int),
            founds(r@) == ms.take(i as int),
        decreases spans@.len() - i,
    {
        let s = &spans[i];
        let ghost m = ms[i as int];
        assert(is_span(spans@[i as int], text@, m));
        assert(0 <= m.0 <= m.1 <= text@.len());
        if i > 0 {
            assert(ms[i - 1].1 <= ms[i as int].0);
        }
        assert(byte_at(v@, m.0) == s.start && byte_at(v@, m.1) == s.end);
        let start: usize = char_from_byte(&v, from, at, s.start);
        proof {
            lemma_same_byte(v@, start as int, m.0);
        }
        let end: usize = char_from_byte(&v, start, s.start, s.end);
        proof {
            lemma_same_byte(v@, end as int, m.1);
        }
        let group = match &s.group {
            Some(g) => Some(g.clone()),
            None => None,
        };
        from = end;
        at = s.end;
        let f = Found { start, end, group };
        proof {
            assert(f@ == m);
            assert(founds(r@.push(f)) =~= founds(r@).push(f@));
            assert(ms.take(i + 1) =~= ms.take(i as int).push(m));
        }
        r.push(f);
        i += 1;
    }
    assert(ms.take(i as int) =~= ms);
    r
}

/// The matches of one of the library's patterns in a text.
pub open spec fn matches_of(p: Pattern, text: Seq<char>) -> Seq<(int, int, Option<Seq<char>>)> {
    regex_matches(pattern_text(p), text)
}

pub fn find_pattern(p: Pattern, text: &str) -> (r: Vec<Found>)
    ensures
        founds(r@) == matches_of(p, text@),
        in_order(founds(r@), text@.len()),
{
    match compile(pattern_str(p)) {
        Ok(rx) => find_all(&rx, text),
        Err(_) => Vec::new(),
    }
}

/// The first group of the first match.
pub open spec fn first_group(ms: Seq<(int, int, Option<Seq<char>>)>) -> Option<Seq<char>> {
    if ms.len() > 0 {
        ms[0].2
    } else {
        None
    }
}

// ---- what is done with matches -------------------------------------------------------

/// A text up to where the first match begins; all of it when there is none.
pub open spec fn cut_before(text: Seq<char>, ms: Seq<(int, int, Option<Seq<char>>)>) -> Seq<char> {
    if ms.len() > 0 {
        text.take(ms[0].0)
    } else {
        text
    }
}

pub fn cut_at_first(text: &str, found: &Vec<Found>) -> (r: String)
    requires
        in_order(founds(found@), text@.len()),
    ensures
        r@ == cut_before(text@, founds(found@)),
{
    if found.len() > 0 {
        assert(founds(found@)[0] == found@[0]@);
        let v = chars_of(text);
        let r = string_range(&v, 0, found[0].start);
        assert(r@ =~= text@.take(found@[0].start as int));
        r
    } else {
        text.to_owned()
    }
}

/// A text up to the end of the first `k` matches, the `i`-th match replaced by
/// `by[i]`.
pub open spec fn spliced_upto(
    text: Seq<char>,
    ms: Seq<(int, int, Option<Seq<char>>)>,
    by: Seq<Seq<char>>,
    k: int,
) -> Seq<char>
    decreases k,
{
    if k <= 0 {
        Seq::empty()
    } else {
        let from = if k == 1 {
            0
        } else {
            ms[k - 2].1
        };
        spliced_upto(text, ms, by, k - 1) + text.subrange(from, ms[k - 1].0) + by[k - 1]
    }
}

/// A text with each match replaced by a text of its own.
pub open spec fn spliced(
    text: Seq<char>,
    ms: Seq<(int, int, Option<Seq<char>>)>,
    by: Seq<Seq<char>>,
) -> Seq<char> {
    spliced_upto(text, ms, by, ms.len() as int) + if ms.len() == 0 {
        text
    } else {
        text.skip(ms.last().1)
    }
}

/// A text with every match replaced by the same text.
pub open spec fn spliced_with(
    text: Seq<char>,
    ms: Seq<(int, int, Option<Seq<char>>)>,
    to: Seq<char>,
) -> Seq<char> {
    spliced(text, ms, Seq::new(ms.len(), |i: int| to))
}

/// Replaces each match by a text of its own.
pub fn splice(text: &str, found: &Vec<Found>, by: &Vec<String>) -> (r: String)
    requires
        in_order(founds(found@), text@.len()),
        by@.len() == found@.len(),
    ensures
        r@ == spliced(text@, founds(found@), texts(by@)),
{
    let v = chars_of(text);
    let ghost ms = founds(found@);
    let mut r = String::new();
    let mut from: usize = 0;
    let mut i: usize = 0;
    while i < found.len()
        invariant
            v@ == text@,
            ms == founds(found@),
            in_order(ms, text@.len()),
            by@.len() == found@.len(),
            i <= found@.len(),
            from == if i == 0 {
                0
            } else {
                ms[i - 1].1
            },
            from <= v@.len(),
            r@ == spliced_upto(text@, ms, texts(by@), i as int),
        decreases found@.len() - i,
    {
        assert(ms[i as int] == found@[i as int]@);
        if i > 0 {
            assert(ms[i - 1].1 <= ms[i as int].0);
        }
        let gap = string_range(&v, from, found[i].start);
        r.append(gap.as_str());
        r.append(by[i].as_str());
        assert(texts(by@)[i as int] == by@[i as int]@);
        from = found[i].end;
        i += 1;
    }
    let rest = string_range(&v, from, v.len());
    assert(rest@ =~= if ms.len() == 0 {
        text@
    } else {
        text@.skip(ms.last().1)
    });
    r.append(rest.as_str());
    r
}

/// Replaces every match by the same text.
pub fn splice_with(text: &str, found: &Vec<Found>, to: &str) -> (r: String)
    requires
        in_order(founds(found@), text@.len()),
    ensures
        r@ == spliced_with(text@, founds(found@), to@),
{
    let mut by: Vec<String> = Vec::new();
    let mut i: usize = 0;
    while i < found.len()
        invariant
            i <= found@.len(),
            by@.len() == i,
            forall|k: int| 0 <= k < i ==> (#[trigger] by@[k])@ == to@,
        decreases found@.len() - i,
    {
        by.push(to.to_owned());
        i += 1;
    }
    assert(texts(by@) =~= Seq::new(founds(found@).len(), |i: int| to@));
    splice(text, found, &by)
}

/// The texts of the matches.
pub open spec fn matched(text: Seq<char>, ms: Seq<(int, int, Option<Seq<char>>)>) -> Seq<Seq<char>> {
    ms.map_values(|m: (int, int, Option<Seq<char>>)| text.subrange(m.0, m.1))
}

/// Lists the texts of the matches.
pub fn matched_texts(text: &str, found: &Vec<Found>) -> (r: Vec<String>)
    requires
        in_order(founds(found@), text@.len()),
    ensures
        texts(r@) == matched(text@, founds(found@)),
{
    let v = chars_of(text);
    let mut r: Vec<String> = Vec::new();
    let mut i: usize = 0;
    while i < found.len()
        invariant
            v@ == text@,
            in_order(founds(found@), text@.len()),
            i <= found@.len(),
            r@.len() == i,
            forall|k: int|
                0 <= k < i ==> (#[trigger] r@[k])@ == matched(text@, founds(found@))[k],
        decreases found@.len() - i,
    {
        assert(founds(found@)[i as int] == found@[i as int]@);
        r.push(string_range(&v, found[i].start, found[i].end));
        i += 1;
    }
    assert(texts(r@) =~= matched(text@, founds(found@)));
    r
}

/// The first groups of the matches, where they took part.
pub open spec fn groups_upto(ms: Seq<(int, int, Option<Seq<char>>)>, k: int) -> Seq<Seq<char>>
    decreases k,
{
    if k <= 0 {
        Seq::empty()
    } else {
        match ms[k - 1].2 {
            Some(g) => groups_upto(ms, k - 1).push(g),
            None => groups_upto(ms, k - 1),
        }
    }
}

pub open spec fn groups(ms: Seq<(int, int, Option<Seq<char>>)>) -> Seq<Seq<char>> {
    groups_upto(ms, ms.len() as int)
}

/// Lists the first groups of the matches.
pub fn group_texts(found: &Vec<Found>) -> (r: Vec<String>)
    ensures
        texts(r@) == groups(founds(found@)),
{
    let mut r: Vec<String> = Vec::new();
    let mut i: usize = 0;
    assert(texts(r@) =~= Seq::empty());
    while i < found.len()
        invariant
            i <= found@.len(),
            texts(r@) == groups_upto(founds(found@), i as int),
        decreases found@.len() - i,
    {
        assert(founds(found@)[i as int] == found@[i as int]@);
        match &found[i].group {
            Some(g) => {
                let g = g.clone();
                assert(texts(r@.push(g)) =~= texts(r@).push(g@));
                r.push(g);
            },
            None => {},
        }
        i += 1;
    }
    r
}

// ---- what holds of every match list ---------------------------------------------------

/// Cutting before a match leaves a beginning of the text.
pub proof fn law_cut_is_a_beginning(text: Seq<char>, ms: Seq<(int, int, Option<Seq<char>>)>)
    requires
        in_order(ms, text.len()),
    ensures
        begins(text, cut_before(text, ms)),
{
    let cut = cut_before(text, ms);
    if ms.len() > 0 {
        assert(0 <= ms[0].0 <= ms[0].1 <= text.len());
    }
    assert(text.take(cut.len() as int) =~= cut);
}

/// Where nothing matches nothing is replaced.
pub proof fn law_no_match_no_change(text: Seq<char>, by: Seq<Seq<char>>)
    ensures
        spliced(text, Seq::empty(), by) == text,
{
    assert(spliced(text, Seq::empty(), by) =~= text);
}

/// The numbers of tapes, disks, parts and sides are found in the same way: the word, space or
/// none, and a figure from one to nine or a letter up to the ninth, as a word of their own, in
/// small letters or capitals.
pub proof fn law_media_are_found_alike()
    ensures
        ({
            let front = r"(?i)\b"@;
            let figure = r"\s*([1-9])\b"@;
            let letter = r"\s*([a-i])\b"@;
            &&& pattern_text(Pattern::TapeDigit) == front + "tape"@ + figure
            &&& pattern_text(Pattern::DiskDigit) == front + "disk"@ + figure
            &&& pattern_text(Pattern::PartDigit) == front + "part"@ + figure
            &&& pattern_text(Pattern::SideDigit) == front + "side"@ + figure
            &&& pattern_text(Pattern::TapeLetter) == front + "tape"@ + letter
            &&& pattern_text(Pattern::DiskLetter) == front + "disk"@ + letter
            &&& pattern_text(Pattern::PartLetter) == front + "part"@ + letter
            &&& pattern_text(Pattern::SideLetter) == front + "side"@ + letter
            &&& pattern_text(Pattern::Start) == front + "start"@ + r"\b"@
            &&& pattern_text(Pattern::End) == front + "end"@ + r"\b"@
        }),
{
    reveal_strlit(r"(?i)\b");
    reveal_strlit(r"\s*([1-9])\b");
    reveal_strlit(r"\s*([a-i])\b");
    reveal_strlit(r"\b");
    reveal_strlit("tape");
    reveal_strlit("disk");
    reveal_strlit("part");
    reveal_strlit("side");
    reveal_strlit("start");
    reveal_strlit("end");
    reveal_strlit(r"(?i)\btape\s*([1-9])\b");
    reveal_strlit(r"(?i)\btape\s*([a-i])\b");
    reveal_strlit(r"(?i)\bdisk\s*([1-9])\b");
    reveal_strlit(r"(?i)\bdisk\s*([a-i])\b");
    reveal_strlit(r"(?i)\bpart\s*([1-9])\b");
    reveal_strlit(r"(?i)\bpart\s*([a-i])\b");
    reveal_strlit(r"(?i)\bside\s*([1-9])\b");
    reveal_strlit(r"(?i)\bside\s*([a-i])\b");
    reveal_strlit(r"(?i)\bstart\b");
    reveal_strlit(r"(?i)\bend\b");
    let front = r"(?i)\b"@;
    let figure = r"\s*([1-9])\b"@;
    let letter = r"\s*([a-i])\b"@;
    assert(pattern_text(Pattern::TapeDigit) =~= front + "tape"@ + figure);
    assert(pattern_text(Pattern::DiskDigit) =~= front + "disk"@ + figure);
    assert(pattern_text(Pattern::PartDigit) =~= front + "part"@ + figure);
    assert(pattern_text(Pattern::SideDigit) =~= front + "side"@ + figure);
    assert(pattern_text(Pattern::TapeLetter) =~= front + "tape"@ + letter);
    assert(pattern_text(Pattern::DiskLetter) =~= front + "disk"@ + letter);
    assert(pattern_text(Pattern::PartLetter) =~= front + "part"@ + letter);
    assert(pattern_text(Pattern::SideLetter) =~= front + "side"@ + letter);
    assert(pattern_text(Pattern::Start) =~= front + "start"@ + r"\b"@);
    assert(pattern_text(Pattern::End) =~= front + "end"@ + r"\b"@);
}

/// A match is replaced where it stands, and what stands around it is kept.
pub proof fn law_a_match_is_replaced(
    a: Seq<char>,
    m: Seq<char>,
    b: Seq<char>,
    group: Option<Seq<char>>,
    to: Seq<char>,
)
    ensures
        ({
            let ms = seq![(a.len() as int, (a.len() + m.len()) as int, group)];
            &&& spliced(a + m + b, ms, seq![to]) == a + to + b
            &&& cut_before(a + m + b, ms) == a
            &&& matched(a + m + b, ms) == seq![m]
        }),
{
    let s = a + m + b;
    let ms = seq![(a.len() as int, (a.len() + m.len()) as int, group)];
    reveal_with_fuel(spliced_upto, 2);
    assert(s.subrange(0, a.len() as int) =~= a);
    assert(s.skip(ms.last().1) =~= b);
    assert(spliced(s, ms, seq![to]) =~= a + to + b);
    assert(s.take(a.len() as int) =~= a);
    assert(s.subrange(a.len() as int, (a.len() + m.len()) as int) =~= m);
    assert(matched(s, ms) =~= seq![m]);
}

} // verus!
