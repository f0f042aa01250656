//! The tunes: the index of the best of them, the party sections that they are listed
//! in, and the files that they are played from.

use crate::catalogue::field_text;
use crate::csdb::{
    between, between_from, between_of, clean, clean_char, cleaned, element_number, find_between,
    group_by_party as by_party, law_clean_texts_fit, links, links_from, listed_release,
    listing_line, number_or_zero, parse_or_zero, parse_rating, party_sections, party_series,
    rating_of, rating_text, read_number, series_of, write_rating, Entry, Ranked,
};
use crate::demos::{answer_view, lemma_number_back, lemma_rating_fits, of_party, party_part};
use crate::formats::{begins_with, has_magic};
use crate::grouping::groups_view;
use crate::sections::Section;
use crate::single::{rank, rank_of};
use crate::table::{
    fields_view, fits_field, fits_record, law_records_come_back, line_of, push_record, records,
    records_of, table_text,
};
use crate::text::{
    append, begins, chars_of, contains, decimal, decimal_text, ends, ends_with, find, find_from,
    from_utf8_lossy, has_part, lemma_find_from, lowered, starts_with, string_range, texts,
    to_lowercase, trim, trimmed, utf8_lossy,
};
use crate::titles::{html_unescape, unescaped};
use vstd::prelude::*;

verus! {

/// A party has to have this many ranked tunes for a section of its own.
pub const MIN_PER_PARTY: usize = 2;

/// No party's section holds more tunes than this.
pub const TOP_PER_PARTY: usize = 30;

/// How many ranked tunes are looked up when nothing else is asked for.
pub const DEFAULT_LIMIT: usize = 600;

/// A ranked tune.
#[derive(Clone, Debug)]
pub struct Tune {
    pub id: u32,
    pub name: String,
    pub composer: String,
    pub group: String,
    /// The series of the party that it was released at; empty when at none.
    pub party: String,
    /// In single precision, by its bits.
    pub rating: u32,
    pub year: u32,
    pub sid_url: String,
}

/// What a tune's record says.
#[verifier::ext_equal]
pub struct Piece {
    pub id: u32,
    pub name: Seq<char>,
    pub composer: Seq<char>,
    pub group: Seq<char>,
    pub party: Seq<char>,
    pub rating: u32,
    pub year: u32,
    pub sid_url: Seq<char>,
}

impl View for Tune {
    type V = Piece;

    open spec fn view(&self) -> Piece {
        Piece {
            id: self.id,
            name: self.name@,
            composer: self.composer@,
            group: self.group@,
            party: self.party@,
            rating: self.rating,
            year: self.year,
            sid_url: self.sid_url@,
        }
    }
}

pub open spec fn tunes_view(v: Seq<Tune>) -> Seq<Piece> {
    v.map_values(|t: Tune| t@)
}

// ---- what the database answers -------------------------------------------------------------------

/// What the database says of a tune's release.
#[derive(Debug)]
pub struct Release {
    pub composer: String,
    pub party: String,
    pub year: u32,
    pub sid_url: String,
}

/// A tune's release as texts.
#[verifier::ext_equal]
pub struct Released {
    pub composer: Seq<char>,
    pub party: Seq<char>,
    pub year: u32,
    pub sid_url: Seq<char>,
}

impl View for Release {
    type V = Released;

    open spec fn view(&self) -> Released {
        Released {
            composer: self.composer@,
            party: self.party@,
            year: self.year,
            sid_url: self.sid_url@,
        }
    }
}

/// A link leads to a tune on the web.
pub open spec fn is_sid_link(l: Seq<char>) -> bool {
    begins(l, "http"@) && ends(lowered(l), ".sid"@)
}

/// The first link to a tune; empty when there is none.
pub open spec fn first_sid(ls: Seq<Seq<char>>) -> Seq<char>
    decreases ls.len(),
{
    if ls.len() == 0 {
        Seq::empty()
    } else if is_sid_link(ls[0]) {
        ls[0]
    } else {
        first_sid(ls.skip(1))
    }
}

fn find_sid(ls: &Vec<String>) -> (r: String)
    ensures
        r@ == first_sid(texts(ls@)),
{
    let ghost all = texts(ls@);
    let mut i: usize = 0;
    assert(all.skip(0) =~= all);
    while i < ls.len()
        invariant
            all == texts(ls@),
            i <= ls@.len(),
            first_sid(all) == first_sid(all.skip(i as int)),
        decreases ls@.len() - i,
    {
        proof {
            assert(all.skip(i as int)[0] == ls@[i as int]@);
            assert(all.skip(i as int).skip(1) =~= all.skip(i + 1));
        }
        if starts_with(ls[i].as_str(), "http") && ends_with(
            to_lowercase(ls[i].as_str()).as_str(),
            ".sid",
        ) {
            return ls[i].clone();
        }
        i += 1;
    }
    assert(all.skip(i as int) =~= Seq::empty());
    let r = String::new();
    assert(r@ =~= Seq::empty());
    r
}

/// The first handle in a credit, from `from` on, that is a name and holds no further
/// mark; empty when there is none.
pub open spec fn handle_from(s: Seq<char>, from: int) -> Seq<char>
    decreases s.len() + 8 - from,
{
    match (between_from(s, "<Handle>"@, "</Handle>"@, from), find_from(s, "<Handle>"@, from)) {
        (Some(at), Some(open)) => {
            let t = trimmed(s.subrange(at.0, at.1));
            if t.len() > 0 && !has_part(t, "<"@) {
                unescaped(t)
            } else if from <= open < s.len() {
                handle_from(s, open + 8)
            } else {
                Seq::empty()
            }
        },
        _ => Seq::empty(),
    }
}

fn find_handle(block: &str) -> (r: String)
    ensures
        r@ == handle_from(block@, 0),
{
    let v = chars_of(block);
    let n: usize = v.len();
    let open = chars_of("<Handle>");
    let close = chars_of("</Handle>");
    proof {
        reveal_strlit("<Handle>");
    }
    let mut from: usize = 0;
    loop
        invariant
            v@ == block@,
            n == v@.len(),
            open@ == "<Handle>"@,
            open@.len() == 8,
            close@ == "</Handle>"@,
            from <= n,
            handle_from(block@, 0) == handle_from(block@, from as int),
        decreases n - from,
    {
        proof {
            lemma_find_from(v@, open@, from as int);
        }
        match (find_between(&v, &open, &close, from), find(&v, &open, from)) {
            (Some((a, b)), Some(at)) => {
                let t = trim(string_range(&v, a, b).as_str());
                if !t.as_str().is_empty() && !contains(t.as_str(), "<") {
                    return html_unescape(t.as_str());
                }
                from = at + 8;
            },
            _ => {
                let r = String::new();
                assert(r@ =~= Seq::empty());
                return r;
            },
        }
    }
}

/// The handle that the first credit for music with a name is to, from `from` on; empty
/// when there is none.
pub open spec fn composer_from(s: Seq<char>, from: int) -> Seq<char>
    decreases s.len() + 8 - from,
{
    match find_from(s, "<Credit>"@, from) {
        Some(open) => if from <= open && open + 8 <= s.len() {
            let end = match find_from(s, "</Credit>"@, open + 8) {
                Some(e) => if open + 8 <= e <= s.len() {
                    e
                } else {
                    s.len() as int
                },
                None => s.len() as int,
            };
            let block = s.subrange(open + 8, end);
            if has_part(block, "<CreditType>Music"@) && handle_from(block, 0).len() > 0 {
                handle_from(block, 0)
            } else {
                composer_from(s, end)
            }
        } else {
            Seq::empty()
        },
        None => Seq::empty(),
    }
}

fn find_composer(xml: &str) -> (r: String)
    ensures
        r@ == composer_from(xml@, 0),
{
    let v = chars_of(xml);
    let n: usize = v.len();
    let open = chars_of("<Credit>");
    let close = chars_of("</Credit>");
    proof {
        reveal_strlit("<Credit>");
    }
    let mut from: usize = 0;
    loop
        invariant
            v@ == xml@,
            n == v@.len(),
            open@ == "<Credit>"@,
            open@.len() == 8,
            close@ == "</Credit>"@,
            from <= n,
            composer_from(xml@, 0) == composer_from(xml@, from as int),
        decreases n - from,
    {
        proof {
            lemma_find_from(v@, open@, from as int);
        }
        match find(&v, &open, from) {
            Some(at) => {
                let start: usize = at + 8;
                proof {
                    lemma_find_from(v@, close@, start as int);
                }
                let end: usize = match find(&v, &close, start) {
                    Some(e) => e,
                    None => n,
                };
                let block = string_range(&v, start, end);
                if contains(block.as_str(), "<CreditType>Music") {
                    let who = find_handle(block.as_str());
                    if !who.as_str().is_empty() {
                        return who;
                    }
                }
                from = end;
            },
            None => {
                let r = String::new();
                assert(r@ =~= Seq::empty());
                return r;
            },
        }
    }
}

/// The release that an answer of the database speaks of: who is credited with the
/// music, the series of the party, the year, and the first link to the tune.
pub open spec fn release_in(xml: Seq<char>) -> Released {
    Released {
        composer: composer_from(xml, 0),
        party: match of_party(xml, "<Name>"@, "</Name>"@) {
            Some(n) => series_of(unescaped(n)),
            None => Seq::empty(),
        },
        year: element_number(between_of(xml, "<ReleaseYear>"@, "</ReleaseYear>"@)),
        sid_url: first_sid(links_from(xml, 0)),
    }
}

/// Reads what the database says of a tune's release.
pub fn parse_release_xml(xml: &str) -> (r: Release)
    ensures
        r@ == release_in(xml@),
{
    let party = match party_part(xml, "<Name>", "</Name>") {
        Some(n) => party_series(html_unescape(n.as_str()).as_str()),
        None => {
            let none = String::new();
            assert(none@ =~= Seq::empty());
            none
        },
    };
    Release {
        composer: find_composer(xml),
        party,
        year: read_number(&between(xml, "<ReleaseYear>", "</ReleaseYear>")),
        sid_url: find_sid(&links(xml)),
    }
}

/// A release of which nothing is known.
pub open spec fn unknown_release() -> Released {
    Released { composer: Seq::empty(), party: Seq::empty(), year: 0, sid_url: Seq::empty() }
}

/// The release that an answer speaks of, where one came.
pub open spec fn release_of_answer(answer: Option<Seq<u8>>) -> Released {
    match answer {
        Some(b) => release_in(utf8_lossy(b)),
        None => unknown_release(),
    }
}

/// Reads the answer on a release; without one nothing is known of it.
pub fn read_release(answer: &Option<Vec<u8>>) -> (r: Release)
    ensures
        r@ == release_of_answer(answer_view(*answer)),
{
    match answer {
        Some(b) => parse_release_xml(from_utf8_lossy(b.as_slice()).as_str()),
        None => {
            let r = Release {
                composer: String::new(),
                party: String::new(),
                year: 0,
                sid_url: String::new(),
            };
            assert(r@ =~= unknown_release());
            r
        },
    }
}

// ---- the index --------------------------------------------------------------------------------------

/// The record of a tune.
pub open spec fn tune_fields(e: Entry, r: Released) -> Seq<Seq<char>> {
    seq![
        decimal(e.id as nat),
        cleaned(e.name),
        cleaned(r.composer),
        cleaned(e.group),
        rating_text(e.rating),
        decimal(r.year as nat),
        cleaned(r.sid_url),
        cleaned(r.party),
    ]
}

/// Adds a ranked tune to the text of an index; one that cannot be downloaded is left
/// out.
pub fn add_tune(text: &mut String, r: &Ranked, release: &Release)
    ensures
        final(text)@ == if release@.sid_url.len() == 0 {
            old(text)@
        } else {
            old(text)@ + line_of(tune_fields(r@, release@)) + seq!['\n']
        },
{
    if release.sid_url.as_str().is_empty() {
        return ;
    }
    let mut f: Vec<String> = Vec::new();
    f.push(decimal_text(r.id as u64));
    f.push(clean(r.name.as_str()));
    f.push(clean(release.composer.as_str()));
    f.push(clean(r.group.as_str()));
    f.push(write_rating(r.rating));
    f.push(decimal_text(release.year as u64));
    f.push(clean(release.sid_url.as_str()));
    f.push(clean(release.party.as_str()));
    assert(texts(f@) =~= tune_fields(r@, release@));
    push_record(text, &f);
}

/// The tune that a record of the index is; records of fewer than eight fields are none.
pub open spec fn tune_of_record(f: Seq<Seq<char>>) -> Option<Piece> {
    if f.len() < 8 {
        None
    } else {
        Some(
            Piece {
                id: number_or_zero(f[0]),
                name: f[1],
                composer: f[2],
                group: f[3],
                rating: rating_of(f[4]),
                year: number_or_zero(f[5]),
                sid_url: f[6],
                party: f[7],
            },
        )
    }
}

pub open spec fn tunes_of_records(rs: Seq<Seq<Seq<char>>>) -> Seq<Piece>
    decreases rs.len(),
{
    if rs.len() == 0 {
        Seq::empty()
    } else {
        let init = tunes_of_records(rs.drop_last());
        match tune_of_record(rs.last()) {
            Some(t) => init.push(t),
            None => init,
        }
    }
}

/// The tunes of an index.
pub open spec fn tunes_of_text(text: Seq<char>) -> Seq<Piece> {
    tunes_of_records(records_of(text))
}

/// Reads the tunes of an index.
pub fn load_tunes(text: &str) -> (r: Vec<Tune>)
    ensures
        tunes_view(r@) == tunes_of_text(text@),
{
    let rs = records(text);
    let ghost all = fields_view(rs@);
    let mut v: Vec<Tune> = Vec::new();
    let mut i: usize = 0;
    assert(tunes_view(v@) =~= tunes_of_records(all.take(0)));
    while i < rs.len()
        invariant
            all == fields_view(rs@),
            i <= rs@.len(),
            tunes_view(v@) == tunes_of_records(all.take(i as int)),
        decreases rs@.len() - i,
    {
        let f = &rs[i];
        proof {
            assert(all.take(i + 1).drop_last() =~= all.take(i as int));
            assert(all[i as int] == texts(f@));
        }
        if f.len() >= 8 {
            let t = Tune {
                id: parse_or_zero(field_text(f, 0).as_str()),
                name: field_text(f, 1),
                composer: field_text(f, 2),
                group: field_text(f, 3),
                rating: parse_rating(field_text(f, 4).as_str()),
                year: parse_or_zero(field_text(f, 5).as_str()),
                sid_url: field_text(f, 6),
                party: field_text(f, 7),
            };
            assert(Some(t@) == tune_of_record(texts(f@)));
            assert(tunes_view(v@.push(t)) =~= tunes_view(v@).push(t@));
            v.push(t);
        }
        i += 1;
    }
    assert(all.take(i as int) =~= all);
    v
}

pub open spec fn parties_of(ts: Seq<Piece>) -> Seq<Seq<char>> {
    ts.map_values(|t: Piece| t.party)
}

/// The ranks of the tunes' ratings.
pub open spec fn ranks_of(ts: Seq<Piece>) -> Seq<u32> {
    ts.map_values(|t: Piece| rank_of(t.rating))
}

/// The sections of the tunes: the party with the best tune first.
pub open spec fn tune_sections(ts: Seq<Piece>) -> Seq<Section> {
    party_sections(
        parties_of(ts),
        ranks_of(ts),
        MIN_PER_PARTY as int,
        TOP_PER_PARTY as int,
        true,
    )
}

/// Groups tunes by party.
pub fn group_by_party(all: &[Tune]) -> (r: Vec<(String, Vec<usize>)>)
    ensures
        groups_view(r@) == tune_sections(tunes_view(all@)),
{
    let mut parties: Vec<String> = Vec::new();
    let mut ratings: Vec<u32> = Vec::new();
    let mut i: usize = 0;
    while i < all.len()
        invariant
            i <= all@.len(),
            parties@.len() == i,
            ratings@.len() == i,
            forall|k: int| 0 <= k < i ==> (#[trigger] parties@[k])@ == all@[k].party@,
            forall|k: int| 0 <= k < i ==> #[trigger] ratings@[k] == rank_of(all@[k].rating),
        decreases all@.len() - i,
    {
        parties.push(all[i].party.clone());
        ratings.push(rank(all[i].rating));
        i += 1;
    }
    assert(texts(parties@) =~= parties_of(tunes_view(all@)));
    assert(ratings@ =~= ranks_of(tunes_view(all@)));
    by_party(&parties, &ratings, MIN_PER_PARTY, TOP_PER_PARTY, true)
}

// ---- files ---------------------------------------------------------------------------------------------

/// Bytes that begin like a tune.
pub open spec fn has_sid_magic(b: Seq<u8>) -> bool {
    has_magic(b, seq![0x50u8, 0x53u8, 0x49u8, 0x44u8]) || has_magic(
        b,
        seq![0x52u8, 0x53u8, 0x49u8, 0x44u8],
    )
}

fn sid_magic(b: &Vec<u8>) -> (r: bool)
    ensures
        r == has_sid_magic(b@),
{
    let psid: Vec<u8> = vec![0x50u8, 0x53u8, 0x49u8, 0x44u8];
    let rsid: Vec<u8> = vec![0x52u8, 0x53u8, 0x49u8, 0x44u8];
    assert(psid@ =~= seq![0x50u8, 0x53u8, 0x49u8, 0x44u8]);
    assert(rsid@ =~= seq![0x52u8, 0x53u8, 0x49u8, 0x44u8]);
    begins_with(b, &psid) || begins_with(b, &rsid)
}

/// The name under which a tune is kept.
pub fn sid_file(id: u32) -> (r: String)
    ensures
        r@ == decimal(id as nat) + ".sid"@,
{
    append(decimal_text(id as u64).as_str(), ".sid")
}

/// Whether a kept file can be played: it is longer than a header, and begins like a
/// tune.
pub fn is_kept_sid(b: &Vec<u8>) -> (r: bool)
    ensures
        r == (b@.len() > 0x7c && has_sid_magic(b@)),
{
    b.len() > 0x7c && sid_magic(b)
}

/// Where a tune is downloaded from.
pub fn sid_source(t: &Tune) -> (r: Result<String, String>)
    ensures
        match r {
            Ok(url) => t@.sid_url.len() > 0 && url@ == t@.sid_url,
            Err(e) => t@.sid_url.len() == 0 && e@ == "no SID download link for this tune"@,
        },
{
    if t.sid_url.as_str().is_empty() {
        Err("no SID download link for this tune".to_string())
    } else {
        Ok(t.sid_url.clone())
    }
}

/// Checks a download: it has a header at least, and begins like a tune.
pub fn check_sid(data: &Vec<u8>) -> (r: Result<(), String>)
    ensures
        match r {
            Ok(_) => data@.len() >= 0x7c && has_sid_magic(data@),
            Err(e) => !(data@.len() >= 0x7c && has_sid_magic(data@)) && e@
                == "download was not a SID file"@,
        },
{
    if data.len() >= 0x7c && sid_magic(data) {
        Ok(())
    } else {
        Err("download was not a SID file".to_string())
    }
}

/// A tune in the plain listing.
pub fn listed_tune(place: u64, t: &Tune) -> (r: String)
    ensures
        r@ == listing_line(place as int, t.rating, t@.name, t@.group, t.year),
{
    listed_release(place, t.rating, t.name.as_str(), t.group.as_str(), t.year)
}

// ---- chance --------------------------------------------------------------------------------------------

/// A number and what follows it.
pub open spec fn shuffled(x: u64) -> u64 {
    let a = x ^ (x << 13);
    let b = a ^ (a >> 7);
    b ^ (b << 17)
}

/// A small generator of numbers, for the radio's choices.
#[derive(Debug)]
pub struct Rng(pub u64);

impl Rng {
    /// A generator in this state; the least bit is set, so that it is not stuck at
    /// zero. Without a number to begin with, a fixed one is used.
    pub fn new(seed: Option<u64>) -> (r: Rng)
        ensures
            r.0 == match seed {
                Some(n) => n | 1,
                None => 0x9e3779b97f4a7c15,
            },
            r.0 != 0,
    {
        let n: u64 = match seed {
            Some(n) => n,
            None => 0x9e3779b97f4a7c15,
        };
        assert(n | 1 != 0) by (bit_vector);
        assert(0x9e3779b97f4a7c15u64 | 1 == 0x9e3779b97f4a7c15u64) by (bit_vector);
        Rng(n | 1)
    }

    /// The next number.
    pub fn next_u64(&mut self) -> (r: u64)
        ensures
            r == shuffled(old(self).0),
            final(self).0 == r,
    {
        let mut x: u64 = self.0;
        x = x ^ (x << 13);
        x = x ^ (x >> 7);
        x = x ^ (x << 17);
        self.0 = x;
        x
    }

    /// The next number below `n`.
    pub fn below(&mut self, n: usize) -> (r: usize)
        requires
            n > 0,
        ensures
            r == shuffled(old(self).0) % (n as u64),
            r < n,
            final(self).0 == shuffled(old(self).0),
    {
        (self.next_u64() % (n as u64)) as usize
    }
}

/// The generator is never stuck: from a number other than zero no zero follows, and
/// different numbers are followed by different ones.
pub proof fn law_chance_is_not_stuck(x: u64, y: u64)
    ensures
        x != 0 ==> shuffled(x) != 0,
        x != y ==> shuffled(x) != shuffled(y),
{
    let a = x ^ (x << 13);
    let b = a ^ (a >> 7);
    let c = y ^ (y << 13);
    let d = c ^ (c >> 7);
    assert(x ^ (x << 13) == y ^ (y << 13) ==> x == y) by (bit_vector);
    assert(a ^ (a >> 7) == c ^ (c >> 7) ==> a == c) by (bit_vector);
    assert(b ^ (b << 17) == d ^ (d << 17) ==> b == d) by (bit_vector);
    assert(x ^ (x << 13) == 0 ==> x == 0) by (bit_vector);
    assert(a ^ (a >> 7) == 0 ==> a == 0) by (bit_vector);
    assert(b ^ (b << 17) == 0 ==> b == 0) by (bit_vector);
}

// ---- laws ----------------------------------------------------------------------------------------------

/// The tune that an index gives back of what was entered.
pub open spec fn entered_tune(e: Entry, r: Released) -> Piece {
    Piece {
        id: e.id,
        name: cleaned(e.name),
        composer: cleaned(r.composer),
        group: cleaned(e.group),
        rating: rating_of(rating_text(e.rating)),
        year: r.year,
        sid_url: cleaned(r.sid_url),
        party: cleaned(r.party),
    }
}

proof fn lemma_tune_record(e: Entry, r: Released)
    ensures
        fits_record(tune_fields(e, r)),
        tune_of_record(tune_fields(e, r)) == Some(entered_tune(e, r)),
{
    let f = tune_fields(e, r);
    lemma_number_back(e.id);
    lemma_number_back(r.year);
    lemma_rating_fits(e.rating);
    law_clean_texts_fit(e.name);
    law_clean_texts_fit(e.group);
    law_clean_texts_fit(r.composer);
    law_clean_texts_fit(r.sid_url);
    law_clean_texts_fit(r.party);
    assert forall|i: int| 0 <= i < f.len() implies fits_field(#[trigger] f[i]) by {
        assert(i == 0 || i == 1 || i == 2 || i == 3 || i == 4 || i == 5 || i == 6 || i == 7);
    }
    let s = line_of(f);
    if s.len() > 0 && s.last() == '\r' {
        reveal_strlit("\t");
        let init = line_of(f.drop_last());
        assert(s == init + "\t"@ + f.last());
        let w = cleaned(r.party);
        if w.len() > 0 {
            assert(s.last() == w.last());
            assert(w[w.len() - 1] == clean_char(r.party[w.len() - 1]));
        } else {
            assert(s.last() == "\t"@[0]);
        }
    }
}

/// What is entered into an index is read back from it.
pub proof fn law_tunes_come_back(all: Seq<(Entry, Released)>)
    ensures
        tunes_of_text(table_text(all.map_values(|x: (Entry, Released)| tune_fields(x.0, x.1))))
            == all.map_values(|x: (Entry, Released)| entered_tune(x.0, x.1)),
{
    let rs = all.map_values(|x: (Entry, Released)| tune_fields(x.0, x.1));
    assert forall|i: int| 0 <= i < rs.len() implies fits_record(#[trigger] rs[i]) by {
        lemma_tune_record(all[i].0, all[i].1);
    }
    law_records_come_back(rs);
    lemma_entered(all);
}

proof fn lemma_entered(all: Seq<(Entry, Released)>)
    ensures
        tunes_of_records(all.map_values(|x: (Entry, Released)| tune_fields(x.0, x.1)))
            == all.map_values(|x: (Entry, Released)| entered_tune(x.0, x.1)),
    decreases all.len(),
{
    let rs = all.map_values(|x: (Entry, Released)| tune_fields(x.0, x.1));
    let ts = all.map_values(|x: (Entry, Released)| entered_tune(x.0, x.1));
    if all.len() > 0 {
        let init = all.drop_last();
        lemma_entered(init);
        assert(rs.drop_last() =~= init.map_values(|x: (Entry, Released)| tune_fields(x.0, x.1)));
        lemma_tune_record(all.last().0, all.last().1);
        assert(ts =~= tunes_of_records(rs.drop_last()).push(ts.last()));
    } else {
        assert(tunes_of_records(rs) =~= ts);
    }
}

/// The tune of a release is behind the first of its links that is on the web and ends in
/// ".sid"; without one there is none.
pub proof fn law_the_first_tune_is_taken(ls: Seq<Seq<char>>, l: Seq<char>)
    ensures
        first_sid(seq![l] + ls) == if begins(l, "http"@) && ends(lowered(l), ".sid"@) {
            l
        } else {
            first_sid(ls)
        },
        first_sid(Seq::empty()).len() == 0,
{
    assert((seq![l] + ls).skip(1) =~= ls);
}

/// Parties with two ranked tunes at least have a section, which holds at most thirty; the
/// party with the best tune comes first.
pub proof fn law_tune_sections(ts: Seq<Piece>)
    ensures
        tune_sections(ts) == party_sections(
            ts.map_values(|t: Piece| t.party),
            ts.map_values(|t: Piece| rank_of(t.rating)),
            2,
            30,
            true,
        ),
{
}

/// A file is kept as a tune when it begins with "PSID" or "RSID".
pub proof fn law_tunes_begin_so(b: Seq<u8>)
    ensures
        has_sid_magic(b) == (b.len() >= 4 && (b[0] == 0x50 || b[0] == 0x52) && b[1] == 0x53 && b[2]
            == 0x49 && b[3] == 0x44),
{
    let p = seq![0x50u8, 0x53u8, 0x49u8, 0x44u8];
    let r = seq![0x52u8, 0x53u8, 0x49u8, 0x44u8];
    if b.len() >= 4 {
        assert(b.take(4)[0] == b[0] && b.take(4)[1] == b[1] && b.take(4)[2] == b[2] && b.take(4)[3]
            == b[3]);
        if b[1] == 0x53 && b[2] == 0x49 && b[3] == 0x44 {
            if b[0] == 0x50 {
                assert(b.take(4) =~= p);
            }
            if b[0] == 0x52 {
                assert(b.take(4) =~= r);
            }
        }
    }
}

/// What a release says of a tune: the one credited with the music, the series of its party,
/// its year and the link to it.
pub proof fn law_releases_of_tunes(xml: Seq<char>)
    ensures
        ({
            let r = release_in(xml);
            let party = of_party(xml, "<Name>"@, "</Name>"@);
            let year = between_of(xml, "<ReleaseYear>"@, "</ReleaseYear>"@);
            &&& party is Some ==> r.party == series_of(unescaped(party->0))
            &&& party is None ==> r.party.len() == 0
            &&& year is Some ==> r.year == number_or_zero(trimmed(year->0))
            &&& year is None ==> r.year == 0
            &&& r.sid_url == first_sid(links_from(xml, 0))
            &&& r.composer == composer_from(xml, 0)
        }),
{
}

} // verus!
