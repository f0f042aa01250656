//! The demos: the index of the best of them, the party sections that they are shown
//! in, and the images that they are run from.

use crate::catalogue::{field_or_empty, field_text};
use crate::csdb::{
    between, between_of, clean, clean_char, cleaned, element_number, element_text, entries_from,
    group_by_party as by_party, law_clean_texts_fit, links, links_from, listed_release,
    listing_line, number_or_zero, parse_or_zero, parse_rating, parse_toplist, party_sections,
    party_series, ranked_view, rating_of, rating_text, read_number, read_text, series_of,
    write_rating, Entry, Ranked,
};
use crate::disk::{
    all_end, best_names, law_the_shortest_is_short, lemma_best_names, shortest,
    shortest_of_best, some_ends,
};
use crate::formats::{begins_with, has_magic, zip_content, zip_directory, zip_names, zip_read};
use crate::grid::{max_int, min_int, Metrics};
use crate::grouping::{first_seen, group, group_view, grouped, groups_view};
use crate::layout::{cut, spaced, spaced_upper, trunc, uppered};
use crate::order::ints;
use crate::paths::{extension, extension_in, last_place, stem_and_extension, stem_of_name};
use crate::sections::Section;
use crate::single::{law_numbers_have_no_spaces, rank, rank_of};
use crate::table::{
    fields_view, fits_field, fits_record, law_records_come_back, line_of, push_record, records,
    records_of, table_text,
};
use crate::text::{
    append, begins, chars_of, decimal, decimal_text, ends, from_utf8_lossy, is_digit, join,
    joined, law_numbers_come_back, lemma_decimal, lowered, opt_text, same, starts_with,
    string_of, texts, to_lowercase, trimmed, two_digit_text, two_digits, utf8_lossy,
};
use crate::titles::{html_unescape, unescaped};
use vstd::prelude::*;
use vstd::utf8::encode_utf8;

verus! {

/// A party has to have this many ranked demos for a section of its own.
pub const MIN_PER_PARTY: usize = 3;

/// No party's section holds more demos than this.
pub const TOP_PER_PARTY: usize = 50;

/// How many ranked demos are looked up when nothing else is asked for.
pub const DEFAULT_LIMIT: usize = 1000;

/// A ranked demo.
#[derive(Clone, Debug)]
pub struct Demo {
    pub id: u32,
    pub name: String,
    pub group: String,
    /// In single precision, by its bits.
    pub rating: u32,
    /// The series of the party that it was released at; empty when at none.
    pub party: String,
    pub year: u32,
    /// Its place in the competition: one for the winner, zero when not known.
    pub place: u32,
    /// The address of its screenshot.
    pub shot: String,
    pub event_type: String,
    pub city: String,
    pub country: String,
    pub website: String,
}

/// What a demo's record says.
#[verifier::ext_equal]
pub struct Production {
    pub id: u32,
    pub name: Seq<char>,
    pub group: Seq<char>,
    pub rating: u32,
    pub party: Seq<char>,
    pub year: u32,
    pub place: u32,
    pub shot: Seq<char>,
    pub event_type: Seq<char>,
    pub city: Seq<char>,
    pub country: Seq<char>,
    pub website: Seq<char>,
}

impl View for Demo {
    type V = Production;

    open spec fn view(&self) -> Production {
        Production {
            id: self.id,
            name: self.name@,
            group: self.group@,
            rating: self.rating,
            party: self.party@,
            year: self.year,
            place: self.place,
            shot: self.shot@,
            event_type: self.event_type@,
            city: self.city@,
            country: self.country@,
            website: self.website@,
        }
    }
}

pub open spec fn demos_view(v: Seq<Demo>) -> Seq<Production> {
    v.map_values(|d: Demo| d@)
}

// ---- what the database answers -------------------------------------------------------------------

/// What the database says of a demo's release.
#[derive(Debug)]
pub struct Release {
    /// The edition of the party; zero when there is none.
    pub event: u32,
    pub party: String,
    pub year: u32,
    pub place: u32,
    pub shot: String,
}

/// A demo's release as texts.
#[verifier::ext_equal]
pub struct Released {
    pub event: u32,
    pub party: Seq<char>,
    pub year: u32,
    pub place: u32,
    pub shot: Seq<char>,
}

impl View for Release {
    type V = Released;

    open spec fn view(&self) -> Released {
        Released {
            event: self.event,
            party: self.party@,
            year: self.year,
            place: self.place,
            shot: self.shot@,
        }
    }
}

/// A release of which nothing is known.
pub open spec fn unknown_release() -> Released {
    Released { event: 0, party: Seq::empty(), year: 0, place: 0, shot: Seq::empty() }
}

/// What stands in the part of an answer that speaks of the party.
pub open spec fn of_party(xml: Seq<char>, open: Seq<char>, close: Seq<char>) -> Option<Seq<char>> {
    match between_of(xml, "<ReleasedAt>"@, "</ReleasedAt>"@) {
        Some(b) => between_of(b, open, close),
        None => None,
    }
}

/// The release that an answer of the database speaks of.
pub open spec fn release_in(xml: Seq<char>) -> Released {
    Released {
        event: element_number(of_party(xml, "<ID>"@, "</ID>"@)),
        party: match of_party(xml, "<Name>"@, "</Name>"@) {
            Some(n) => unescaped(n),
            None => Seq::empty(),
        },
        year: element_number(between_of(xml, "<ReleaseYear>"@, "</ReleaseYear>"@)),
        place: element_number(between_of(xml, "<Place>"@, "</Place>"@)),
        shot: element_text(between_of(xml, "<ScreenShot>"@, "</ScreenShot>"@)),
    }
}

pub fn party_part(xml: &str, open: &str, close: &str) -> (r: Option<String>)
    ensures
        opt_text(r) == of_party(xml@, open@, close@),
{
    match between(xml, "<ReleasedAt>", "</ReleasedAt>") {
        Some(b) => between(b.as_str(), open, close),
        None => None,
    }
}

/// Reads what the database says of a demo's release.
pub fn parse_release_xml(xml: &str) -> (r: Release)
    ensures
        r@ == release_in(xml@),
{
    let party = match party_part(xml, "<Name>", "</Name>") {
        Some(n) => html_unescape(n.as_str()),
        None => {
            let none = String::new();
            assert(none@ =~= Seq::empty());
            none
        },
    };
    Release {
        event: read_number(&party_part(xml, "<ID>", "</ID>")),
        party,
        year: read_number(&between(xml, "<ReleaseYear>", "</ReleaseYear>")),
        place: read_number(&between(xml, "<Place>", "</Place>")),
        shot: read_text(&between(xml, "<ScreenShot>", "</ScreenShot>")),
    }
}

/// The release that an answer speaks of, where one came.
pub open spec fn release_of_answer(answer: Option<Seq<u8>>) -> Released {
    match answer {
        Some(b) => release_in(utf8_lossy(b)),
        None => unknown_release(),
    }
}

/// The bytes of an answer.
pub open spec fn answer_view(a: Option<Vec<u8>>) -> Option<Seq<u8>> {
    match a {
        Some(b) => Some(b@),
        None => None,
    }
}

/// Reads the answer on a release; without one nothing is known of it.
pub fn read_release(answer: &Option<Vec<u8>>) -> (r: Release)
    ensures
        r@ == release_of_answer(answer_view(*answer)),
{
    match answer {
        Some(b) => parse_release_xml(from_utf8_lossy(b.as_slice()).as_str()),
        None => {
            let r = Release {
                event: 0,
                party: String::new(),
                year: 0,
                place: 0,
                shot: String::new(),
            };
            assert(r@ =~= unknown_release());
            r
        },
    }
}

/// Where an edition of a party was held.
#[derive(Debug)]
pub struct Venue {
    pub event_type: String,
    pub city: String,
    pub country: String,
    pub website: String,
}

/// A venue as texts.
#[verifier::ext_equal]
pub struct Held {
    pub event_type: Seq<char>,
    pub city: Seq<char>,
    pub country: Seq<char>,
    pub website: Seq<char>,
}

impl View for Venue {
    type V = Held;

    open spec fn view(&self) -> Held {
        Held {
            event_type: self.event_type@,
            city: self.city@,
            country: self.country@,
            website: self.website@,
        }
    }
}

/// A venue of which nothing is known.
pub open spec fn unknown_venue() -> Held {
    Held {
        event_type: Seq::empty(),
        city: Seq::empty(),
        country: Seq::empty(),
        website: Seq::empty(),
    }
}

/// The venue that an answer of the database speaks of.
pub open spec fn venue_in(xml: Seq<char>) -> Held {
    Held {
        event_type: element_text(between_of(xml, "<EventType>"@, "</EventType>"@)),
        city: element_text(between_of(xml, "<City>"@, "</City>"@)),
        country: element_text(between_of(xml, "<Country>"@, "</Country>"@)),
        website: element_text(between_of(xml, "<Website>"@, "</Website>"@)),
    }
}

/// Reads what the database says of an edition of a party.
pub fn parse_event_xml(xml: &str) -> (r: Venue)
    ensures
        r@ == venue_in(xml@),
{
    Venue {
        event_type: read_text(&between(xml, "<EventType>", "</EventType>")),
        city: read_text(&between(xml, "<City>", "</City>")),
        country: read_text(&between(xml, "<Country>", "</Country>")),
        website: read_text(&between(xml, "<Website>", "</Website>")),
    }
}

/// The venue that an answer speaks of, where one came.
pub open spec fn venue_of_answer(answer: Option<Seq<u8>>) -> Held {
    match answer {
        Some(b) => venue_in(utf8_lossy(b)),
        None => unknown_venue(),
    }
}

fn no_venue() -> (v: Venue)
    ensures
        v@ == unknown_venue(),
{
    let v = Venue {
        event_type: String::new(),
        city: String::new(),
        country: String::new(),
        website: String::new(),
    };
    assert(v@ =~= unknown_venue());
    v
}

/// Reads the answer on an edition of a party; without one nothing is known of it.
pub fn read_venue(answer: &Option<Vec<u8>>) -> (r: Venue)
    ensures
        r@ == venue_of_answer(answer_view(*answer)),
{
    match answer {
        Some(b) => parse_event_xml(from_utf8_lossy(b.as_slice()).as_str()),
        None => no_venue(),
    }
}

// ---- building the index -----------------------------------------------------------------------------

/// The ranked demos that are looked up: the first of the list, up to a limit.
pub open spec fn first_ranked(page: Seq<char>, limit: int) -> Seq<Entry> {
    let all = entries_from(page, 0);
    if all.len() <= limit {
        all
    } else {
        all.take(limit)
    }
}

/// Reads the page of the list; `None` when there is nothing in it.
pub fn ranked_releases(page: &Vec<u8>, limit: usize) -> (r: Option<Vec<Ranked>>)
    ensures
        match r {
            Some(v) => entries_from(utf8_lossy(page@), 0).len() > 0 && ranked_view(v@)
                == first_ranked(utf8_lossy(page@), limit as int),
            None => entries_from(utf8_lossy(page@), 0).len() == 0,
        },
{
    let mut v = parse_toplist(from_utf8_lossy(page.as_slice()).as_str());
    let ghost all = ranked_view(v@);
    assert(all.len() == v@.len());
    if v.len() == 0 {
        return None;
    }
    if v.len() > limit {
        v.truncate(limit);
    }
    assert(ranked_view(v@) =~= first_ranked(utf8_lossy(page@), limit as int));
    Some(v)
}

/// The record of a demo: who made it, how it is rated, and where it was released.
pub open spec fn demo_fields(e: Entry, r: Released, v: Held) -> Seq<Seq<char>> {
    seq![
        decimal(e.id as nat),
        cleaned(e.name),
        cleaned(e.group),
        rating_text(e.rating),
        cleaned(series_of(r.party)),
        decimal(r.year as nat),
        decimal(r.place as nat),
        cleaned(r.shot),
        cleaned(v.event_type),
        cleaned(v.city),
        cleaned(v.country),
        cleaned(v.website),
    ]
}

/// The venues that were looked up, by edition.
pub open spec fn venues_view(v: Seq<(u32, Venue)>) -> Seq<(u32, Held)> {
    v.map_values(|e: (u32, Venue)| (e.0, e.1@))
}

/// The venue of an edition, where it was looked up.
pub open spec fn venue_at(vs: Seq<(u32, Held)>, event: u32) -> Option<Held>
    decreases vs.len(),
{
    if vs.len() == 0 {
        None
    } else if vs[0].0 == event {
        Some(vs[0].1)
    } else {
        venue_at(vs.skip(1), event)
    }
}

/// The venue of an edition; nothing is known of one that was not looked up.
pub open spec fn venue_or_unknown(vs: Seq<(u32, Held)>, event: u32) -> Held {
    match venue_at(vs, event) {
        Some(v) => v,
        None => unknown_venue(),
    }
}

/// An index of demos while it is built.
pub struct DemoIndex {
    pub venues: Vec<(u32, Venue)>,
    pub text: String,
}

impl DemoIndex {
    pub open spec fn known(self) -> Seq<(u32, Held)> {
        venues_view(self.venues@)
    }

    pub fn new() -> (r: DemoIndex)
        ensures
            r.known() == Seq::<(u32, Held)>::empty(),
            r.text@ == Seq::<char>::empty(),
    {
        let r = DemoIndex { venues: Vec::new(), text: String::new() };
        assert(r.known() =~= Seq::empty());
        assert(r.text@ =~= Seq::empty());
        r
    }

    fn find_venue(&self, event: u32) -> (r: Option<usize>)
        ensures
            match r {
                Some(i) => i < self.venues@.len() && venue_at(self.known(), event) == Some(
                    self.venues@[i as int].1@,
                ),
                None => venue_at(self.known(), event) is None,
            },
    {
        let mut i: usize = 0;
        let ghost all = self.known();
        assert(all.skip(0) =~= all);
        while i < self.venues.len()
            invariant
                all == self.known(),
                i <= self.venues@.len(),
                venue_at(all, event) == venue_at(all.skip(i as int), event),
            decreases self.venues@.len() - i,
        {
            proof {
                assert(all.skip(i as int)[0] == all[i as int]);
                assert(all.skip(i as int).skip(1) =~= all.skip(i + 1));
            }
            if self.venues[i].0 == event {
                return Some(i);
            }
            i += 1;
        }
        assert(all.skip(i as int) =~= Seq::empty());
        None
    }

    /// Whether the database has to be asked for the venue of an edition: there is such
    /// an edition, and it was not asked for before.
    pub fn wants_venue(&self, event: u32) -> (r: bool)
        ensures
            r == (event != 0 && venue_at(self.known(), event) is None),
    {
        event != 0 && self.find_venue(event).is_none()
    }

    /// Remembers what was answered on the venue of an edition. What was answered first
    /// stays.
    pub fn enter_venue(&mut self, event: u32, answer: &Option<Vec<u8>>)
        ensures
            final(self).text == old(self).text,
            final(self).known() == old(self).known().push(
                (event, venue_of_answer(answer_view(*answer))),
            ),
    {
        let v = read_venue(answer);
        let ghost was = self.venues@;
        self.venues.push((event, v));
        assert(venues_view(self.venues@) =~= venues_view(was).push(
            (event, venue_of_answer(answer_view(*answer))),
        ));
    }

    /// Adds a ranked demo to the index.
    pub fn add_demo(&mut self, r: &Ranked, release: &Release)
        ensures
            final(self).known() == old(self).known(),
            final(self).text@ == old(self).text@ + line_of(
                demo_fields(
                    r@,
                    release@,
                    if release.event == 0 {
                        unknown_venue()
                    } else {
                        venue_or_unknown(old(self).known(), release.event)
                    },
                ),
            ) + seq!['\n'],
    {
        let none = no_venue();
        let venue: &Venue = if release.event == 0 {
            &none
        } else {
            match self.find_venue(release.event) {
                Some(i) => &self.venues[i].1,
                None => &none,
            }
        };
        let mut f: Vec<String> = Vec::new();
        f.push(decimal_text(r.id as u64));
        f.push(clean(r.name.as_str()));
        f.push(clean(r.group.as_str()));
        f.push(write_rating(r.rating));
        f.push(clean(party_series(release.party.as_str()).as_str()));
        f.push(decimal_text(release.year as u64));
        f.push(decimal_text(release.place as u64));
        f.push(clean(release.shot.as_str()));
        f.push(clean(venue.event_type.as_str()));
        f.push(clean(venue.city.as_str()));
        f.push(clean(venue.country.as_str()));
        f.push(clean(venue.website.as_str()));
        assert(texts(f@) =~= demo_fields(r@, release@, venue@));
        push_record(&mut self.text, &f);
    }
}

// ---- reading the index ------------------------------------------------------------------------------

/// The demo that a record of the index is; records of fewer than eight fields are none.
pub open spec fn demo_of_record(f: Seq<Seq<char>>) -> Option<Production> {
    if f.len() < 8 {
        None
    } else {
        Some(
            Production {
                id: number_or_zero(f[0]),
                name: f[1],
                group: f[2],
                rating: rating_of(f[3]),
                party: f[4],
                year: number_or_zero(f[5]),
                place: number_or_zero(f[6]),
                shot: f[7],
                event_type: field_or_empty(f, 8),
                city: field_or_empty(f, 9),
                country: field_or_empty(f, 10),
                website: field_or_empty(f, 11),
            },
        )
    }
}

pub open spec fn demos_of_records(rs: Seq<Seq<Seq<char>>>) -> Seq<Production>
    decreases rs.len(),
{
    if rs.len() == 0 {
        Seq::empty()
    } else {
        let init = demos_of_records(rs.drop_last());
        match demo_of_record(rs.last()) {
            Some(d) => init.push(d),
            None => init,
        }
    }
}

/// The demos of an index.
pub open spec fn demos_of_text(text: Seq<char>) -> Seq<Production> {
    demos_of_records(records_of(text))
}

/// Reads the demos of an index.
pub fn load_demos(text: &str) -> (r: Vec<Demo>)
    ensures
        demos_view(r@) == demos_of_text(text@),
{
    let rs = records(text);
    let ghost all = fields_view(rs@);
    let mut v: Vec<Demo> = Vec::new();
    let mut i: usize = 0;
    assert(demos_view(v@) =~= demos_of_records(all.take(0)));
    while i < rs.len()
        invariant
            all == fields_view(rs@),
            i <= rs@.len(),
            demos_view(v@) == demos_of_records(all.take(i as int)),
        decreases rs@.len() - i,
    {
        let f = &rs[i];
        proof {
            assert(all.take(i + 1).drop_last() =~= all.take(i as int));
            assert(all[i as int] == texts(f@));
        }
        if f.len() >= 8 {
            let d = Demo {
                id: parse_or_zero(field_text(f, 0).as_str()),
                name: field_text(f, 1),
                group: field_text(f, 2),
                rating: parse_rating(field_text(f, 3).as_str()),
                party: field_text(f, 4),
                year: parse_or_zero(field_text(f, 5).as_str()),
                place: parse_or_zero(field_text(f, 6).as_str()),
                shot: field_text(f, 7),
                event_type: field_text(f, 8),
                city: field_text(f, 9),
                country: field_text(f, 10),
                website: field_text(f, 11),
            };
            assert(Some(d@) == demo_of_record(texts(f@)));
            assert(demos_view(v@.push(d)) =~= demos_view(v@).push(d@));
            v.push(d);
        }
        i += 1;
    }
    assert(all.take(i as int) =~= all);
    v
}

pub open spec fn parties_of(ds: Seq<Production>) -> Seq<Seq<char>> {
    ds.map_values(|d: Production| d.party)
}

/// The ranks of the demos' ratings.
pub open spec fn ranks_of(ds: Seq<Production>) -> Seq<u32> {
    ds.map_values(|d: Production| rank_of(d.rating))
}

/// The sections of the demos: the parties with the most ranked demos first.
pub open spec fn demo_sections(ds: Seq<Production>) -> Seq<Section> {
    party_sections(
        parties_of(ds),
        ranks_of(ds),
        MIN_PER_PARTY as int,
        TOP_PER_PARTY as int,
        false,
    )
}

/// Groups demos by party.
pub fn group_by_party(all: &[Demo]) -> (r: Vec<(String, Vec<usize>)>)
    ensures
        groups_view(r@) == demo_sections(demos_view(all@)),
{
    let mut parties: Vec<String> = Vec::new();
    let mut ratings: Vec<u32> = Vec::new();
    let mut i: usize = 0;
    while i < all.len()
        invariant
            i <= all@.len(),
            parties@.len() == i,
            ratings@.len() == i,
            forall|k: int| 0 <= k < i ==> (#[trigger] parties@[k])@ == all@[k].party@,
            forall|k: int| 0 <= k < i ==> #[trigger] ratings@[k] == rank_of(all@[k].rating),
        decreases all@.len() - i,
    {
        parties.push(all[i].party.clone());
        ratings.push(rank(all[i].rating));
        i += 1;
    }
    assert(texts(parties@) =~= parties_of(demos_view(all@)));
    assert(ratings@ =~= ranks_of(demos_view(all@)));
    by_party(&parties, &ratings, MIN_PER_PARTY, TOP_PER_PARTY, false)
}

// ---- screenshots -----------------------------------------------------------------------------------

/// The extension of a picture's address in lower case, where it is that of a picture;
/// else the one that pictures mostly have.
pub open spec fn shot_extension(shot: Seq<char>) -> Seq<char> {
    match extension_in(shot) {
        Some(e) => if lowered(e) == "png"@ || lowered(e) == "gif"@ || lowered(e) == "jpg"@
            || lowered(e) == "jpeg"@ {
            lowered(e)
        } else {
            "png"@
        },
        None => "png"@,
    }
}

/// The name under which a demo's screenshot is kept; `None` when it has none.
pub open spec fn shot_file_of(d: Production) -> Option<Seq<char>> {
    if d.shot.len() == 0 {
        None
    } else {
        Some(decimal(d.id as nat) + "."@ + shot_extension(d.shot))
    }
}

/// The name under which a demo's screenshot is kept.
pub fn shot_file(d: &Demo) -> (r: Option<String>)
    ensures
        opt_text(r) == shot_file_of(d@),
{
    if d.shot.as_str().is_empty() {
        return None;
    }
    let ext = match extension(d.shot.as_str()) {
        Some(e) => {
            let low = to_lowercase(e.as_str());
            if same(low.as_str(), "png") || same(low.as_str(), "gif") || same(low.as_str(), "jpg")
                || same(low.as_str(), "jpeg") {
                low
            } else {
                "png".to_string()
            }
        },
        None => "png".to_string(),
    };
    let id = append(decimal_text(d.id as u64).as_str(), ".");
    Some(append(id.as_str(), ext.as_str()))
}

/// Whether a downloaded screenshot is kept: a shorter one is no picture.
pub fn is_shot(len: usize) -> (r: bool)
    ensures
        r == (len >= 200),
{
    len >= 200
}

// ---- images ------------------------------------------------------------------------------------------

/// The extensions of images that the emulator starts, the best first.
pub open spec fn run_extensions() -> Seq<Seq<char>> {
    seq![".d64"@, ".g64"@, ".d81"@, ".d71"@, ".prg"@, ".crt"@, ".t64"@, ".tap"@]
}

fn run_extension_list() -> (r: Vec<String>)
    ensures
        texts(r@) == run_extensions(),
{
    let mut r: Vec<String> = Vec::new();
    r.push(".d64".to_string());
    r.push(".g64".to_string());
    r.push(".d81".to_string());
    r.push(".d71".to_string());
    r.push(".prg".to_string());
    r.push(".crt".to_string());
    r.push(".t64".to_string());
    r.push(".tap".to_string());
    assert(texts(r@) =~= run_extensions());
    r
}

/// The name of a downloaded file begins with the demo's number and an underscore.
pub open spec fn is_image_of(id: u32, name: Seq<char>) -> bool {
    begins(stem_of_name(name), decimal(id as nat) + "_"@)
}

/// Whether a file among the downloads is a demo's.
pub fn is_downloaded(id: u32, name: &str) -> (r: bool)
    ensures
        r == is_image_of(id, name@),
{
    let stem = stem_and_extension(name).0;
    starts_with(stem.as_str(), append(decimal_text(id as u64).as_str(), "_").as_str())
}

/// The first text that begins like a web address.
pub open spec fn first_http(ls: Seq<Seq<char>>) -> Option<Seq<char>>
    decreases ls.len(),
{
    if ls.len() == 0 {
        None
    } else if begins(ls[0], "http"@) {
        Some(ls[0])
    } else {
        first_http(ls.skip(1))
    }
}

/// The link that a demo is downloaded from.
pub fn demo_link(answer: &Vec<u8>) -> (r: Result<String, String>)
    ensures
        match r {
            Ok(l) => first_http(links_from(utf8_lossy(answer@), 0)) == Some(l@),
            Err(e) => first_http(links_from(utf8_lossy(answer@), 0)) is None && e@
                == "no downloadable (http) link for this demo on CSDb"@,
        },
{
    let ls = links(from_utf8_lossy(answer.as_slice()).as_str());
    let ghost all = texts(ls@);
    let mut i: usize = 0;
    assert(all.skip(0) =~= all);
    while i < ls.len()
        invariant
            all == texts(ls@),
            all == links_from(utf8_lossy(answer@), 0),
            i <= ls@.len(),
            first_http(all) == first_http(all.skip(i as int)),
        decreases ls@.len() - i,
    {
        proof {
            assert(all.skip(i as int)[0] == ls@[i as int]@);
            assert(all.skip(i as int).skip(1) =~= all.skip(i + 1));
        }
        if starts_with(ls[i].as_str(), "http") {
            return Ok(ls[i].clone());
        }
        i += 1;
    }
    assert(all.skip(i as int) =~= Seq::empty());
    Err("no downloadable (http) link for this demo on CSDb".to_string())
}

pub open spec fn plain_char(c: char) -> char {
    if ('a' <= c <= 'z') || ('A' <= c <= 'Z') || ('0' <= c <= '9') {
        c
    } else {
        '_'
    }
}

/// A name that is safe for a file: with an underscore for all but plain letters and
/// digits.
pub open spec fn plain_name(s: Seq<char>) -> Seq<char> {
    s.map_values(|c: char| plain_char(c))
}

pub fn plain_text(s: &str) -> (r: String)
    ensures
        r@ == plain_name(s@),
{
    let v = chars_of(s);
    let mut out: Vec<char> = Vec::new();
    let mut i: usize = 0;
    while i < v.len()
        invariant
            v@ == s@,
            i <= v@.len(),
            out@.len() == i,
            forall|k: int| 0 <= k < i ==> #[trigger] out@[k] == plain_name(s@)[k],
        decreases v@.len() - i,
    {
        let c: char = v[i];
        if ('a' <= c && c <= 'z') || ('A' <= c && c <= 'Z') || ('0' <= c && c <= '9') {
            out.push(c);
        } else {
            out.push('_');
        }
        i += 1;
    }
    assert(out@ =~= plain_name(s@));
    string_of(&out)
}

/// The name that a demo's image is kept under.
pub open spec fn image_name_of(d: Production, ext: Seq<char>) -> Seq<char> {
    decimal(d.id as nat) + "_"@ + plain_name(d.name) + ext
}

fn image_name(d: &Demo, ext: &str) -> (r: String)
    ensures
        r@ == image_name_of(d@, ext@),
{
    let a = append(decimal_text(d.id as u64).as_str(), "_");
    let b = append(a.as_str(), plain_text(d.name.as_str()).as_str());
    append(b.as_str(), ext)
}

/// The extension of a path with its dot; empty when it has none.
pub open spec fn dotted_extension(path: Seq<char>) -> Seq<char> {
    match extension_in(path) {
        Some(e) => "."@ + e,
        None => Seq::empty(),
    }
}

pub fn extension_with_dot(path: &str) -> (r: String)
    ensures
        r@ == dotted_extension(path@),
{
    match extension(path) {
        Some(e) => append(".", e.as_str()),
        None => {
            let r = String::new();
            assert(r@ =~= Seq::empty());
            r
        },
    }
}

/// An image ready to be kept: its name, and its content, which is that of the download
/// where nothing was unpacked.
#[derive(Debug)]
pub struct Prepared {
    pub name: String,
    pub unpacked: Option<Vec<u8>>,
}

/// What is made of a download.
pub enum Outcome {
    /// An archive that cannot be opened.
    BadZip,
    /// An archive without an image.
    NoImage,
    /// An archive whose image cannot be unpacked.
    Unreadable,
    /// Neither an archive nor an image.
    NotAnImage,
    /// An image of this name, with this content.
    Image(Seq<char>, Seq<u8>),
}

/// The first two bytes of an archive.
pub open spec fn zip_magic() -> Seq<u8> {
    seq![0x50u8, 0x4bu8]
}

/// What is made of the download of a demo: of an archive, its best image; of anything
/// else, itself, where the link has the extension of an image.
pub open spec fn outcome(d: Production, link: Seq<char>, data: Seq<u8>) -> Outcome {
    if has_magic(data, zip_magic()) {
        match zip_directory(data) {
            None => Outcome::BadZip,
            Some(names) => {
                let best = best_names(names, run_extensions());
                if best.len() == 0 {
                    Outcome::NoImage
                } else {
                    match zip_content(data, shortest(best)) {
                        None => Outcome::Unreadable,
                        Some(blob) => Outcome::Image(
                            image_name_of(d, dotted_extension(shortest(best))),
                            blob,
                        ),
                    }
                }
            },
        }
    } else {
        match extension_in(link) {
            Some(e) => if run_extensions().contains("."@ + lowered(e)) {
                Outcome::Image(image_name_of(d, "."@ + lowered(e)), data)
            } else {
                Outcome::NotAnImage
            },
            None => Outcome::NotAnImage,
        }
    }
}

/// Whether a result is this outcome. What is said of an archive that cannot be opened
/// or unpacked begins with what went wrong, and is otherwise free.
pub open spec fn is_outcome(r: Result<Prepared, String>, o: Outcome, data: Seq<u8>) -> bool {
    match (r, o) {
        (Ok(p), Outcome::Image(name, content)) => p.name@ == name && match p.unpacked {
            Some(blob) => blob@ == content,
            None => data == content,
        },
        (Err(e), Outcome::BadZip) => begins(e@, "bad zip: "@),
        (Err(e), Outcome::NoImage) => e@
            == "no runnable disk/program image inside the demo archive"@,
        (Err(_), Outcome::Unreadable) => true,
        (Err(e), Outcome::NotAnImage) => e@ == "the demo download is not a recognised C64 image"@,
        _ => false,
    }
}

fn is_run_extension(ext: &str) -> (r: bool)
    ensures
        r == run_extensions().contains(ext@),
{
    let all = run_extension_list();
    let mut i: usize = 0;
    while i < all.len()
        invariant
            texts(all@) == run_extensions(),
            i <= all@.len(),
            forall|k: int| 0 <= k < i ==> run_extensions()[k] != ext@,
        decreases all@.len() - i,
    {
        assert(texts(all@)[i as int] == all@[i as int]@);
        if same(all[i].as_str(), ext) {
            return true;
        }
        i += 1;
    }
    assert(texts(all@).len() == all@.len());
    false
}

/// Makes an image of the download of a demo.
pub fn prepare(d: &Demo, link: &str, data: &Vec<u8>) -> (r: Result<Prepared, String>)
    ensures
        is_outcome(r, outcome(d@, link@, data@), data@),
{
    let magic: Vec<u8> = vec![0x50u8, 0x4bu8];
    assert(magic@ =~= zip_magic());
    if begins_with(data, &magic) {
        let names = match zip_names(data) {
            Ok(names) => names,
            Err(e) => {
                let why = append("bad zip: ", e.as_str());
                assert(why@.take("bad zip: "@.len() as int) =~= "bad zip: "@);
                return Err(why);
            },
        };
        match shortest_of_best(&names, &run_extension_list()) {
            Some(member) => match zip_read(data, member.as_str()) {
                Ok(blob) => {
                    let ext = extension_with_dot(member.as_str());
                    Ok(Prepared { name: image_name(d, ext.as_str()), unpacked: Some(blob) })
                },
                Err(e) => Err(e),
            },
            None => Err("no runnable disk/program image inside the demo archive".to_string()),
        }
    } else {
        match extension(link) {
            Some(e) => {
                let ext = append(".", to_lowercase(e.as_str()).as_str());
                if is_run_extension(ext.as_str()) {
                    Ok(Prepared { name: image_name(d, ext.as_str()), unpacked: None })
                } else {
                    Err("the demo download is not a recognised C64 image".to_string())
                }
            },
            None => Err("the demo download is not a recognised C64 image".to_string()),
        }
    }
}

// ---- the party of a section ---------------------------------------------------------------------------

/// The texts that are not empty.
pub open spec fn filled_texts(s: Seq<Seq<char>>) -> Seq<Seq<char>>
    decreases s.len(),
{
    if s.len() == 0 {
        Seq::empty()
    } else if s.last().len() > 0 {
        filled_texts(s.drop_last()).push(s.last())
    } else {
        filled_texts(s.drop_last())
    }
}

fn keep_filled(v: &Vec<String>) -> (r: Vec<String>)
    ensures
        texts(r@) == filled_texts(texts(v@)),
{
    let ghost all = texts(v@);
    let mut r: Vec<String> = Vec::new();
    let mut i: usize = 0;
    assert(texts(r@) =~= filled_texts(all.take(0)));
    while i < v.len()
        invariant
            all == texts(v@),
            i <= v@.len(),
            texts(r@) == filled_texts(all.take(i as int)),
        decreases v@.len() - i,
    {
        proof {
            assert(all.take(i + 1).drop_last() =~= all.take(i as int));
            assert(all[i as int] == v@[i as int]@);
        }
        if !v[i].as_str().is_empty() {
            let t = v[i].clone();
            assert(texts(r@.push(t)) =~= texts(r@).push(t@));
            r.push(t);
        }
        i += 1;
    }
    assert(all.take(i as int) =~= all);
    r
}

/// The first of the greatest groups among the first `n`.
pub open spec fn greatest_upto(gs: Seq<(Seq<char>, Seq<int>)>, n: int) -> int
    decreases n,
{
    if n <= 1 {
        0
    } else {
        let best = greatest_upto(gs, n - 1);
        if gs[n - 1].1.len() > gs[best].1.len() {
            n - 1
        } else {
            best
        }
    }
}

/// The text that occurs most often, and of those the one that is seen first; empty when
/// there is none.
pub open spec fn most_common_of(s: Seq<Seq<char>>) -> Seq<char> {
    let gs = grouped(filled_texts(s));
    if gs.len() == 0 {
        Seq::empty()
    } else {
        gs[greatest_upto(gs, gs.len() as int)].0
    }
}

pub fn most_common(v: &Vec<String>) -> (r: String)
    ensures
        r@ == most_common_of(texts(v@)),
{
    let groups = group(&keep_filled(v));
    let ghost gs = groups_view(groups@);
    assert(gs.len() == groups@.len());
    if groups.len() == 0 {
        let r = String::new();
        assert(r@ =~= Seq::empty());
        return r;
    }
    let mut best: usize = 0;
    let mut n: usize = 1;
    while n < groups.len()
        invariant
            gs == groups_view(groups@),
            gs.len() == groups@.len(),
            1 <= n <= groups@.len(),
            best < n,
            best == greatest_upto(gs, n as int),
        decreases groups@.len() - n,
    {
        proof {
            assert(gs[n as int] == group_view(groups@[n as int]));
            assert(gs[best as int] == group_view(groups@[best as int]));
        }
        if groups[n].1.len() > groups[best].1.len() {
            best = n;
        }
        n += 1;
    }
    assert(gs[best as int] == group_view(groups@[best as int]));
    groups[best].0.clone()
}

/// The earliest of the years that are known; zero when none is.
pub open spec fn least_year(ys: Seq<u32>) -> u32
    decreases ys.len(),
{
    if ys.len() == 0 {
        0
    } else {
        let init = least_year(ys.drop_last());
        let y = ys.last();
        if y == 0 || (init != 0 && init <= y) {
            init
        } else {
            y
        }
    }
}

/// The latest of the years; zero when none is known.
pub open spec fn latest_year(ys: Seq<u32>) -> u32
    decreases ys.len(),
{
    if ys.len() == 0 {
        0
    } else {
        let init = latest_year(ys.drop_last());
        if ys.last() > init {
            ys.last()
        } else {
            init
        }
    }
}

/// The years as they span: nothing, one year, or the first and the last.
pub open spec fn year_span(ys: Seq<u32>) -> Seq<char> {
    let lo = least_year(ys);
    let hi = latest_year(ys);
    if lo == 0 {
        Seq::empty()
    } else if lo == hi {
        decimal(lo as nat)
    } else {
        decimal(lo as nat) + "\u{2013}"@ + decimal(hi as nat)
    }
}

fn span_text(ys: &Vec<u32>) -> (r: String)
    ensures
        r@ == year_span(ys@),
{
    let mut lo: u32 = 0;
    let mut hi: u32 = 0;
    let mut i: usize = 0;
    while i < ys.len()
        invariant
            i <= ys@.len(),
            lo == least_year(ys@.take(i as int)),
            hi == latest_year(ys@.take(i as int)),
        decreases ys@.len() - i,
    {
        assert(ys@.take(i + 1).drop_last() =~= ys@.take(i as int));
        let y = ys[i];
        if !(y == 0 || (lo != 0 && lo <= y)) {
            lo = y;
        }
        if y > hi {
            hi = y;
        }
        i += 1;
    }
    assert(ys@.take(i as int) =~= ys@);
    if lo == 0 {
        let r = String::new();
        assert(r@ =~= Seq::empty());
        r
    } else if lo == hi {
        decimal_text(lo as u64)
    } else {
        let a = append(decimal_text(lo as u64).as_str(), "\u{2013}");
        append(a.as_str(), decimal_text(hi as u64).as_str())
    }
}

/// A place as it is shown: the city and the country, as far as they are known.
pub open spec fn location_of(city: Seq<char>, country: Seq<char>) -> Seq<char> {
    if city.len() > 0 && country.len() > 0 {
        city + ", "@ + country
    } else if country.len() > 0 {
        country
    } else {
        city
    }
}

/// The last of the demos with a website that are from the latest year among those.
pub open spec fn latest_with_site(ds: Seq<Production>) -> Option<Production>
    decreases ds.len(),
{
    if ds.len() == 0 {
        None
    } else {
        let init = latest_with_site(ds.drop_last());
        let d = ds.last();
        match init {
            Some(b) => if d.website.len() > 0 && d.year >= b.year {
                Some(d)
            } else {
                init
            },
            None => if d.website.len() > 0 {
                Some(d)
            } else {
                None
            },
        }
    }
}

/// What is said of the party of a section.
#[derive(Debug)]
pub struct Summary {
    pub headline: String,
    pub website: String,
    pub groups: Vec<String>,
}

/// The texts of a summary.
#[verifier::ext_equal]
pub struct PartyFacts {
    pub headline: Seq<char>,
    pub website: Seq<char>,
    pub groups: Seq<Seq<char>>,
}

impl View for Summary {
    type V = PartyFacts;

    open spec fn view(&self) -> PartyFacts {
        PartyFacts {
            headline: self.headline@,
            website: self.website@,
            groups: texts(self.groups@),
        }
    }
}

/// The summary of a section with these demos, in their order: the kind of the party,
/// where it was and when, the website of its latest edition, and the groups.
pub open spec fn summary_of(ds: Seq<Production>) -> PartyFacts {
    let location = location_of(
        most_common_of(ds.map_values(|d: Production| d.city)),
        most_common_of(ds.map_values(|d: Production| d.country)),
    );
    PartyFacts {
        headline: joined(
            filled_texts(
                seq![
                    most_common_of(ds.map_values(|d: Production| d.event_type)),
                    location,
                    year_span(ds.map_values(|d: Production| d.year)),
                ],
            ),
            "   \u{00b7}   "@,
        ),
        website: match latest_with_site(ds) {
            Some(d) => d.website,
            None => Seq::empty(),
        },
        groups: first_seen(filled_texts(ds.map_values(|d: Production| d.group))),
    }
}

/// The demos of a section.
pub open spec fn demos_at(ds: Seq<Production>, idxs: Seq<int>) -> Seq<Production> {
    idxs.map_values(|i: int| ds[i])
}

/// The texts of a list, each once, in the order in which they are first seen.
fn keep_first_seen(v: &Vec<String>) -> (r: Vec<String>)
    ensures
        texts(r@) == first_seen(texts(v@)),
{
    let groups = group(v);
    let ghost gs = groups_view(groups@);
    assert(gs.len() == groups@.len());
    let mut r: Vec<String> = Vec::new();
    let mut i: usize = 0;
    while i < groups.len()
        invariant
            gs == groups_view(groups@),
            gs == grouped(texts(v@)),
            gs.len() == groups@.len(),
            i <= groups@.len(),
            r@.len() == i,
            forall|k: int| 0 <= k < i ==> (#[trigger] r@[k])@ == first_seen(texts(v@))[k],
        decreases groups@.len() - i,
    {
        assert(gs[i as int] == group_view(groups@[i as int]));
        r.push(groups[i].0.clone());
        i += 1;
    }
    assert(texts(r@) =~= first_seen(texts(v@)));
    r
}

/// The website of a party's latest edition that has one.
fn latest_website(all: &[Demo], idxs: &Vec<usize>) -> (r: String)
    requires
        forall|k: int| 0 <= k < idxs@.len() ==> #[trigger] idxs@[k] < all@.len(),
    ensures
        r@ == match latest_with_site(demos_at(demos_view(all@), ints(idxs@))) {
            Some(d) => d.website,
            None => Seq::empty(),
        },
{
    let ghost ds = demos_at(demos_view(all@), ints(idxs@));
    let mut best: Option<usize> = None;
    let mut i: usize = 0;
    while i < idxs.len()
        invariant
            forall|k: int| 0 <= k < idxs@.len() ==> #[trigger] idxs@[k] < all@.len(),
            ds == demos_at(demos_view(all@), ints(idxs@)),
            i <= idxs@.len(),
            match best {
                Some(b) => b < all@.len() && latest_with_site(ds.take(i as int)) == Some(
                    all@[b as int]@,
                ),
                None => latest_with_site(ds.take(i as int)) is None,
            },
        decreases idxs@.len() - i,
    {
        let at = idxs[i];
        proof {
            assert(ds.take(i + 1).drop_last() =~= ds.take(i as int));
            assert(ds[i as int] == all@[at as int]@);
        }
        if !all[at].website.as_str().is_empty() {
            match best {
                Some(b) => {
                    if all[at].year >= all[b].year {
                        best = Some(at);
                    }
                },
                None => {
                    best = Some(at);
                },
            }
        }
        i += 1;
    }
    assert(ds.take(i as int) =~= ds);
    match best {
        Some(b) => all[b].website.clone(),
        None => {
            let r = String::new();
            assert(r@ =~= Seq::empty());
            r
        },
    }
}

/// Sums up the party of a section.
pub fn party_summary(all: &[Demo], idxs: &Vec<usize>) -> (r: Summary)
    requires
        forall|k: int| 0 <= k < idxs@.len() ==> #[trigger] idxs@[k] < all@.len(),
    ensures
        r@ == summary_of(demos_at(demos_view(all@), ints(idxs@))),
{
    let ghost ds = demos_at(demos_view(all@), ints(idxs@));
    let mut types: Vec<String> = Vec::new();
    let mut cities: Vec<String> = Vec::new();
    let mut countries: Vec<String> = Vec::new();
    let mut groups: Vec<String> = Vec::new();
    let mut years: Vec<u32> = Vec::new();
    let mut i: usize = 0;
    while i < idxs.len()
        invariant
            forall|k: int| 0 <= k < idxs@.len() ==> #[trigger] idxs@[k] < all@.len(),
            ds == demos_at(demos_view(all@), ints(idxs@)),
            i <= idxs@.len(),
            types@.len() == i,
            cities@.len() == i,
            countries@.len() == i,
            groups@.len() == i,
            years@.len() == i,
            forall|k: int| 0 <= k < i ==> (#[trigger] types@[k])@ == ds[k].event_type,
            forall|k: int| 0 <= k < i ==> (#[trigger] cities@[k])@ == ds[k].city,
            forall|k: int| 0 <= k < i ==> (#[trigger] countries@[k])@ == ds[k].country,
            forall|k: int| 0 <= k < i ==> (#[trigger] groups@[k])@ == ds[k].group,
            forall|k: int| 0 <= k < i ==> #[trigger] years@[k] == ds[k].year,
        decreases idxs@.len() - i,
    {
        let d = &all[idxs[i]];
        assert(ds[i as int] == d@);
        types.push(d.event_type.clone());
        cities.push(d.city.clone());
        countries.push(d.country.clone());
        groups.push(d.group.clone());
        years.push(d.year);
        i += 1;
    }
    proof {
        assert(texts(types@) =~= ds.map_values(|d: Production| d.event_type));
        assert(texts(cities@) =~= ds.map_values(|d: Production| d.city));
        assert(texts(countries@) =~= ds.map_values(|d: Production| d.country));
        assert(texts(groups@) =~= ds.map_values(|d: Production| d.group));
        assert(years@ =~= ds.map_values(|d: Production| d.year));
    }
    let city = most_common(&cities);
    let country = most_common(&countries);
    let location = if !city.as_str().is_empty() && !country.as_str().is_empty() {
        append(append(city.as_str(), ", ").as_str(), country.as_str())
    } else if !country.as_str().is_empty() {
        country
    } else {
        city
    };
    let mut parts: Vec<String> = Vec::new();
    parts.push(most_common(&types));
    parts.push(location);
    parts.push(span_text(&years));
    assert(texts(parts@) =~= seq![
        most_common_of(ds.map_values(|d: Production| d.event_type)),
        location_of(
            most_common_of(ds.map_values(|d: Production| d.city)),
            most_common_of(ds.map_values(|d: Production| d.country)),
        ),
        year_span(ds.map_values(|d: Production| d.year)),
    ]);
    Summary {
        headline: join(&keep_filled(&parts), "   \u{00b7}   "),
        website: latest_website(all, idxs),
        groups: keep_first_seen(&keep_filled(&groups)),
    }
}

/// The height that a card of the grid aims at.
pub const CARD_HEIGHT: u16 = 13;

/// The sizes of the browser of demos.
pub fn demo_metrics() -> (m: Metrics)
    ensures
        m == (Metrics { ov_section: 16, title_h: 3, target_cw: 22 }),
        m.wf(),
{
    Metrics { ov_section: 16, title_h: 3, target_cw: 22 }
}

// ---- on the screen --------------------------------------------------------------------------------------

/// The first line of a demo's card: its name, with a star for the winner of a
/// competition.
pub open spec fn card_name_of(d: Production) -> Seq<char> {
    if d.place == 1 {
        "\u{2605} "@ + d.name
    } else {
        d.name
    }
}

pub fn card_name(d: &Demo) -> (r: String)
    ensures
        r@ == card_name_of(d@),
{
    if d.place == 1 {
        append("\u{2605} ", d.name.as_str())
    } else {
        d.name.clone()
    }
}

/// The second line of a demo's card: the group, the year and the rating.
pub open spec fn card_meta_of(d: Production) -> Seq<char> {
    d.group + "  \u{00b7}  '"@ + two_digits((d.year % 100) as int) + "  \u{00b7}  "@ + rating_text(
        d.rating,
    )
}

pub fn card_meta(d: &Demo) -> (r: String)
    ensures
        r@ == card_meta_of(d@),
{
    let a = append(d.group.as_str(), "  \u{00b7}  '");
    let b = append(a.as_str(), two_digit_text((d.year % 100) as u64).as_str());
    let c = append(b.as_str(), "  \u{00b7}  ");
    append(c.as_str(), write_rating(d.rating).as_str())
}

/// The line beneath a demo's name in its window: the group, the year where it is
/// known, and the party.
pub open spec fn detail_line_of(d: Production) -> Seq<char> {
    d.group + " \u{00b7} "@ + (if d.year > 0 {
        decimal(d.year as nat)
    } else {
        "\u{2014}"@
    }) + " \u{00b7} "@ + d.party
}

pub fn detail_line(d: &Demo) -> (r: String)
    ensures
        r@ == detail_line_of(d@),
{
    let year = if d.year > 0 {
        decimal_text(d.year as u64)
    } else {
        "\u{2014}".to_string()
    };
    let a = append(d.group.as_str(), " \u{00b7} ");
    let b = append(a.as_str(), year.as_str());
    let c = append(b.as_str(), " \u{00b7} ");
    append(c.as_str(), d.party.as_str())
}

/// The bar of a section in the overview.
pub open spec fn section_bar_of(name: Seq<char>, count: int, hint: Seq<char>) -> Seq<char> {
    "  "@ + spaced(uppered(name)) + "   ("@ + decimal(count as nat) + " demos)   "@ + hint
}

pub fn section_bar(name: &str, count: usize, hint: &str) -> (r: String)
    ensures
        r@ == section_bar_of(name@, count as int, hint@),
{
    let a = append("  ", spaced_upper(name).as_str());
    let b = append(a.as_str(), "   (");
    let c = append(b.as_str(), decimal_text(count as u64).as_str());
    let d = append(c.as_str(), " demos)   ");
    append(d.as_str(), hint)
}

/// The title of an open section.
pub open spec fn section_title_of(name: Seq<char>, count: int) -> Seq<char> {
    "  "@ + spaced(uppered(name)) + "    (top "@ + decimal(count as nat)
        + ")   click a cover to run \u{00b7} esc back \u{00b7} q quit"@
}

pub fn section_title(name: &str, count: usize) -> (r: String)
    ensures
        r@ == section_title_of(name@, count as int),
{
    let a = append("  ", spaced_upper(name).as_str());
    let b = append(a.as_str(), "    (top ");
    let c = append(b.as_str(), decimal_text(count as u64).as_str());
    append(c.as_str(), ")   click a cover to run \u{00b7} esc back \u{00b7} q quit")
}

/// The lines on the party of a section, on a screen of a width: a label and a text
/// that is cut to fit. What is not known has no line.
pub open spec fn info_lines_of(f: PartyFacts, width: int) -> Seq<(Seq<char>, Seq<char>)> {
    let inner = max_int(0, width - 4);
    (if f.headline.len() > 0 {
        seq![(Seq::empty(), cut(f.headline, inner))]
    } else {
        Seq::empty()
    }) + (if f.groups.len() > 0 {
        seq![("Groups: "@, cut(joined(f.groups, ", "@), max_int(0, inner - 8)))]
    } else {
        Seq::empty()
    }) + (if f.website.len() > 0 {
        seq![("Web: "@, cut(f.website, max_int(0, inner - 5)))]
    } else {
        Seq::empty()
    })
}

pub open spec fn pairs_view(v: Seq<(String, String)>) -> Seq<(Seq<char>, Seq<char>)> {
    v.map_values(|p: (String, String)| (p.0@, p.1@))
}

fn less(a: usize, b: usize) -> (r: usize)
    ensures
        r == max_int(0, a - b),
{
    if a > b {
        a - b
    } else {
        0
    }
}

/// The lines on the party of a section.
pub fn info_lines(s: &Summary, width: u16) -> (r: Vec<(String, String)>)
    ensures
        pairs_view(r@) == info_lines_of(s@, width as int),
        r@.len() <= 3,
{
    let inner: usize = less(width as usize, 4);
    let mut v: Vec<(String, String)> = Vec::new();
    if !s.headline.as_str().is_empty() {
        v.push((String::new(), trunc(s.headline.as_str(), inner)));
    }
    let ghost first = v@;
    assert(texts(s.groups@).len() == s.groups@.len());
    if s.groups.len() > 0 {
        let all = join(&s.groups, ", ");
        v.push(("Groups: ".to_string(), trunc(all.as_str(), less(inner, 8))));
    }
    if !s.website.as_str().is_empty() {
        v.push(("Web: ".to_string(), trunc(s.website.as_str(), less(inner, 5))));
    }
    assert(pairs_view(v@) =~= info_lines_of(s@, width as int)) by {
        if s.headline@.len() > 0 {
            assert(first[0].0@ =~= Seq::empty());
        }
    }
    v
}

/// The rows that the lines take below the title, with a gap behind them.
pub open spec fn info_rows_of(lines: int, height: int) -> int {
    if lines == 0 {
        0
    } else {
        min_int(lines + 1, max_int(0, height - 1))
    }
}

pub fn info_rows(lines: usize, height: u16) -> (r: u16)
    requires
        lines < u16::MAX,
    ensures
        r == info_rows_of(lines as int, height as int),
{
    let left: u16 = if height > 1 {
        height - 1
    } else {
        0
    };
    if lines == 0 {
        0
    } else if lines as u16 + 1 <= left {
        lines as u16 + 1
    } else {
        left
    }
}

/// A demo in the plain listing.
pub fn listed_demo(place: u64, d: &Demo) -> (r: String)
    ensures
        r@ == listing_line(place as int, d.rating, d@.name, d@.group, d.year),
{
    listed_release(place, d.rating, d.name.as_str(), d.group.as_str(), d.year)
}

// ---- laws --------------------------------------------------------------------------------------------------

pub proof fn lemma_number_back(n: u32)
    ensures
        number_or_zero(decimal(n as nat)) == n,
        fits_field(decimal(n as nat)),
{
    law_numbers_come_back(n as int);
    lemma_decimal(n as nat);
    assert(is_digit(decimal(n as nat)[0]));
    assert forall|i: int| 0 <= i < decimal(n as nat).len() implies #[trigger] decimal(n as nat)[i]
        != '\t' && decimal(n as nat)[i] != '\n' by {
        assert(is_digit(decimal(n as nat)[i]));
    }
}

pub proof fn lemma_rating_fits(r: u32)
    ensures
        fits_field(rating_text(r)),
{
    let s = rating_text(r);
    assert forall|i: int| 0 <= i < s.len() implies #[trigger] s[i] != '\t' && s[i] != '\n' by {
        law_numbers_have_no_spaces(r, i);
    }
}

/// The demo that an index gives back of what was entered.
pub open spec fn entered_demo(e: Entry, r: Released, v: Held) -> Production {
    Production {
        id: e.id,
        name: cleaned(e.name),
        group: cleaned(e.group),
        rating: rating_of(rating_text(e.rating)),
        party: cleaned(series_of(r.party)),
        year: r.year,
        place: r.place,
        shot: cleaned(r.shot),
        event_type: cleaned(v.event_type),
        city: cleaned(v.city),
        country: cleaned(v.country),
        website: cleaned(v.website),
    }
}

proof fn lemma_demo_record(e: Entry, r: Released, v: Held)
    ensures
        fits_record(demo_fields(e, r, v)),
        demo_of_record(demo_fields(e, r, v)) == Some(entered_demo(e, r, v)),
{
    let f = demo_fields(e, r, v);
    lemma_number_back(e.id);
    lemma_number_back(r.year);
    lemma_number_back(r.place);
    lemma_rating_fits(e.rating);
    law_clean_texts_fit(e.name);
    law_clean_texts_fit(e.group);
    law_clean_texts_fit(series_of(r.party));
    law_clean_texts_fit(r.shot);
    law_clean_texts_fit(v.event_type);
    law_clean_texts_fit(v.city);
    law_clean_texts_fit(v.country);
    law_clean_texts_fit(v.website);
    assert forall|i: int| 0 <= i < f.len() implies fits_field(#[trigger] f[i]) by {
        assert(i == 0 || i == 1 || i == 2 || i == 3 || i == 4 || i == 5 || i == 6 || i == 7 || i == 8
            || i == 9 || i == 10 || i == 11);
    }
    let s = line_of(f);
    if s.len() > 0 && s.last() == '\r' {
        reveal_strlit("\t");
        let init = line_of(f.drop_last());
        assert(s == init + "\t"@ + f.last());
        let w = cleaned(v.website);
        if w.len() > 0 {
            assert(s.last() == w.last());
            assert(w[w.len() - 1] == clean_char(v.website[w.len() - 1]));
        } else {
            assert(s.last() == "\t"@[0]);
        }
    }
}

/// What is entered into an index is read back from it.
pub proof fn law_demos_come_back(all: Seq<(Entry, Released, Held)>)
    ensures
        demos_of_text(
            table_text(all.map_values(|x: (Entry, Released, Held)| demo_fields(x.0, x.1, x.2))),
        ) == all.map_values(|x: (Entry, Released, Held)| entered_demo(x.0, x.1, x.2)),
{
    let rs = all.map_values(|x: (Entry, Released, Held)| demo_fields(x.0, x.1, x.2));
    assert forall|i: int| 0 <= i < rs.len() implies fits_record(#[trigger] rs[i]) by {
        lemma_demo_record(all[i].0, all[i].1, all[i].2);
    }
    law_records_come_back(rs);
    lemma_entered(all);
}

proof fn lemma_entered(all: Seq<(Entry, Released, Held)>)
    ensures
        demos_of_records(
            all.map_values(|x: (Entry, Released, Held)| demo_fields(x.0, x.1, x.2)),
        ) == all.map_values(|x: (Entry, Released, Held)| entered_demo(x.0, x.1, x.2)),
    decreases all.len(),
{
    let rs = all.map_values(|x: (Entry, Released, Held)| demo_fields(x.0, x.1, x.2));
    let ds = all.map_values(|x: (Entry, Released, Held)| entered_demo(x.0, x.1, x.2));
    if all.len() > 0 {
        let init = all.drop_last();
        lemma_entered(init);
        assert(rs.drop_last() =~= init.map_values(
            |x: (Entry, Released, Held)| demo_fields(x.0, x.1, x.2),
        ));
        lemma_demo_record(all.last().0, all.last().1, all.last().2);
        assert(ds =~= demos_of_records(rs.drop_last()).push(ds.last()));
    } else {
        assert(demos_of_records(rs) =~= ds);
    }
}

/// The venue of an edition is asked for once: when it was entered it is known, and it
/// does not change what is known of others.
pub proof fn law_venues_are_asked_once(
    vs: Seq<(u32, Held)>,
    event: u32,
    v: Held,
    other: u32,
)
    ensures
        venue_at(vs.push((event, v)), event) is Some,
        venue_at(vs, event) is None ==> venue_at(vs.push((event, v)), event) == Some(v),
        venue_at(vs, other) is Some ==> venue_at(vs.push((event, v)), other) == venue_at(vs, other),
        other != event ==> venue_at(vs.push((event, v)), other) == venue_at(vs, other),
    decreases vs.len(),
{
    let more = vs.push((event, v));
    if vs.len() > 0 {
        law_venues_are_asked_once(vs.skip(1), event, v, other);
        assert(more.skip(1) =~= vs.skip(1).push((event, v)));
        assert(more[0] == vs[0]);
    } else {
        assert(more.skip(1) =~= vs);
    }
}

proof fn lemma_last_place(s: Seq<char>, c: char)
    ensures
        -1 <= last_place(s, c) < s.len(),
        forall|i: int| last_place(s, c) < i < s.len() ==> s[i] != c,
    decreases s.len(),
{
    if s.len() > 0 && s.last() != c {
        lemma_last_place(s.drop_last(), c);
        assert forall|i: int| last_place(s, c) < i < s.len() implies s[i] != c by {
            if i < s.len() - 1 {
                assert(s.drop_last()[i] == s[i]);
            }
        }
    }
}

/// A demo's image is found again by its name, so nothing is downloaded twice.
pub proof fn law_images_are_found_again(d: Production, ext: Seq<char>)
    requires
        ext.len() == 0 || ext[0] == '.',
    ensures
        is_image_of(d.id, image_name_of(d, ext)),
{
    let front = decimal(d.id as nat) + "_"@;
    let name = image_name_of(d, ext);
    let body = front + plain_name(d.name);
    reveal_strlit("_");
    lemma_decimal(d.id as nat);
    lemma_last_place(name, '.');
    assert(name =~= body + ext);
    let at = last_place(name, '.');
    if ext.len() > 0 {
        assert(name[body.len() as int] == '.');
        assert(at >= body.len());
    }
    if at > 0 && at < front.len() {
        assert(false) by {
            assert(ext.len() == 0);
            lemma_last_is(name, '.');
            assert(name[at] == front[at]);
            if at < decimal(d.id as nat).len() {
                assert(is_digit(decimal(d.id as nat)[at]));
            }
        }
    }
    let stem = stem_of_name(name);
    assert(stem.take(front.len() as int) =~= front);
}

proof fn lemma_last_is(s: Seq<char>, c: char)
    ensures
        last_place(s, c) >= 0 ==> last_place(s, c) < s.len() && s[last_place(s, c)] == c,
    decreases s.len(),
{
    if s.len() > 0 && s.last() != c {
        lemma_last_is(s.drop_last(), c);
    }
}

// ---- what is made of a download ---------------------------------------------------------------------------------

/// The images that the emulator starts, the best first: disks, then programs, cartridges and
/// tapes. What is taken of an archive has the best ending that any of its members has.
pub proof fn law_the_best_image_is_taken(names: Seq<Seq<char>>, n: Seq<char>)
    requires
        names.contains(n),
    ensures
        ends(lowered(n), ".d64"@) ==> all_end(best_names(names, run_extensions()), ".d64"@) && best_names(
            names,
            run_extensions(),
        ).contains(n),
        ends(lowered(n), ".g64"@) && !some_ends(names, ".d64"@) ==> all_end(best_names(names, run_extensions()), ".g64"@) && best_names(
            names,
            run_extensions(),
        ).contains(n),
        ends(lowered(n), ".d81"@) && !some_ends(names, ".d64"@) && !some_ends(names, ".g64"@) ==> all_end(best_names(names, run_extensions()), ".d81"@) && best_names(
            names,
            run_extensions(),
        ).contains(n),
        ends(lowered(n), ".d71"@) && !some_ends(names, ".d64"@) && !some_ends(names, ".g64"@) && !some_ends(names, ".d81"@) ==> all_end(best_names(names, run_extensions()), ".d71"@) && best_names(
            names,
            run_extensions(),
        ).contains(n),
        ends(lowered(n), ".prg"@) && !some_ends(names, ".d64"@) && !some_ends(names, ".g64"@) && !some_ends(names, ".d81"@) && !some_ends(names, ".d71"@) ==> all_end(best_names(names, run_extensions()), ".prg"@) && best_names(
            names,
            run_extensions(),
        ).contains(n),
        ends(lowered(n), ".crt"@) && !some_ends(names, ".d64"@) && !some_ends(names, ".g64"@) && !some_ends(names, ".d81"@) && !some_ends(names, ".d71"@) && !some_ends(names, ".prg"@) ==> all_end(best_names(names, run_extensions()), ".crt"@) && best_names(
            names,
            run_extensions(),
        ).contains(n),
        ends(lowered(n), ".t64"@) && !some_ends(names, ".d64"@) && !some_ends(names, ".g64"@) && !some_ends(names, ".d81"@) && !some_ends(names, ".d71"@) && !some_ends(names, ".prg"@) && !some_ends(names, ".crt"@) ==> all_end(best_names(names, run_extensions()), ".t64"@) && best_names(
            names,
            run_extensions(),
        ).contains(n),
        ends(lowered(n), ".tap"@) && !some_ends(names, ".d64"@) && !some_ends(names, ".g64"@) && !some_ends(names, ".d81"@) && !some_ends(names, ".d71"@) && !some_ends(names, ".prg"@) && !some_ends(names, ".crt"@) && !some_ends(names, ".t64"@) ==> all_end(best_names(names, run_extensions()), ".tap"@) && best_names(
            names,
            run_extensions(),
        ).contains(n),
{
    let exts = run_extensions();
    if ends(lowered(n), ".d64"@) {
        lemma_best_names(names, exts, 0);
    } else if ends(lowered(n), ".g64"@) && !some_ends(names, ".d64"@) {
        lemma_best_names(names, exts, 1);
    } else if ends(lowered(n), ".d81"@) && !some_ends(names, ".d64"@) && !some_ends(names, ".g64"@) {
        lemma_best_names(names, exts, 2);
    } else if ends(lowered(n), ".d71"@) && !some_ends(names, ".d64"@) && !some_ends(names, ".g64"@) && !some_ends(names, ".d81"@) {
        lemma_best_names(names, exts, 3);
    } else if ends(lowered(n), ".prg"@) && !some_ends(names, ".d64"@) && !some_ends(names, ".g64"@) && !some_ends(names, ".d81"@) && !some_ends(names, ".d71"@) {
        lemma_best_names(names, exts, 4);
    } else if ends(lowered(n), ".crt"@) && !some_ends(names, ".d64"@) && !some_ends(names, ".g64"@) && !some_ends(names, ".d81"@) && !some_ends(names, ".d71"@) && !some_ends(names, ".prg"@) {
        lemma_best_names(names, exts, 5);
    } else if ends(lowered(n), ".t64"@) && !some_ends(names, ".d64"@) && !some_ends(names, ".g64"@) && !some_ends(names, ".d81"@) && !some_ends(names, ".d71"@) && !some_ends(names, ".prg"@) && !some_ends(names, ".crt"@) {
        lemma_best_names(names, exts, 6);
    } else if ends(lowered(n), ".tap"@) && !some_ends(names, ".d64"@) && !some_ends(names, ".g64"@) && !some_ends(names, ".d81"@) && !some_ends(names, ".d71"@) && !some_ends(names, ".prg"@) && !some_ends(names, ".crt"@) && !some_ends(names, ".t64"@) {
        lemma_best_names(names, exts, 7);
    }
}

/// Of an archive with a member that the emulator can start, the image that is made has the
/// content of a member with the best ending, of those the one with the shortest name, and is
/// kept under the demo's number and name.
pub proof fn law_archives_give_their_best_image(
    d: Production,
    link: Seq<char>,
    data: Seq<u8>,
    names: Seq<Seq<char>>,
    n: Seq<char>,
) -> (taken: Seq<char>)
    requires
        data.len() >= 2,
        data[0] == 0x50,
        data[1] == 0x4b,
        zip_directory(data) == Some(names),
        names.contains(n),
        ends(lowered(n), ".d64"@) || ends(lowered(n), ".g64"@) || ends(lowered(n), ".d81"@) || ends(
            lowered(n),
            ".d71"@,
        ) || ends(lowered(n), ".prg"@) || ends(lowered(n), ".crt"@) || ends(lowered(n), ".t64"@)
            || ends(lowered(n), ".tap"@),
    ensures
        names.contains(taken),
        some_ends(names, ".d64"@) ==> ends(lowered(taken), ".d64"@),
        !some_ends(names, ".d64"@) && some_ends(names, ".g64"@) ==> ends(lowered(taken), ".g64"@),
        forall|o: Seq<char>| #[trigger]
            best_names(names, run_extensions()).contains(o) ==> encode_utf8(taken).len()
                <= encode_utf8(o).len(),
        match zip_content(data, taken) {
            Some(blob) => outcome(d, link, data) == Outcome::Image(
                decimal(d.id as nat) + "_"@ + plain_name(d.name) + dotted_extension(taken),
                blob,
            ),
            None => outcome(d, link, data) == Outcome::Unreadable,
        },
{
    let best = best_names(names, run_extensions());
    let exts = run_extensions();
    let k = first_kind(names, 0);
    lemma_first_kind(names, n, 0);
    assert(some_ends(names, exts[k]));
    assert forall|j: int, o: Seq<char>|
        0 <= j < k && #[trigger] names.contains(o) implies !ends(lowered(o), #[trigger] exts[j]) by {
        assert(!some_ends(names, exts[j]));
    }
    lemma_best_names(names, exts, k);
    law_the_shortest_is_short(best, 0);
    assert forall|o: Seq<char>| #[trigger] best.contains(o) implies encode_utf8(
        shortest(best),
    ).len() <= encode_utf8(o).len() by {
        law_the_shortest_is_short(best, best.index_of(o));
    }
    assert(data.take(2) =~= zip_magic());
    let t = shortest(best);
    assert(ends(lowered(t), exts[k]));
    if some_ends(names, ".d64"@) {
        if k > 0 {
            assert(!some_ends(names, exts[0]));
        }
    } else if some_ends(names, ".g64"@) {
        assert(k != 0);
        if k > 1 {
            assert(!some_ends(names, exts[1]));
        }
    }
    t
}

spec fn first_kind(names: Seq<Seq<char>>, from: int) -> int
    decreases run_extensions().len() - from,
{
    if from >= run_extensions().len() || some_ends(names, run_extensions()[from]) {
        from
    } else {
        first_kind(names, from + 1)
    }
}

proof fn lemma_first_kind(names: Seq<Seq<char>>, n: Seq<char>, from: int)
    requires
        names.contains(n),
        0 <= from <= 8,
        exists|k: int| from <= k < 8 && ends(lowered(n), #[trigger] run_extensions()[k]),
    ensures
        from <= first_kind(names, from) < 8,
        some_ends(names, run_extensions()[first_kind(names, from)]),
        forall|j: int|
            from <= j < first_kind(names, from) ==> !some_ends(names, #[trigger] run_extensions()[j]),
    decreases 8 - from,
{
    let k = choose|k: int| from <= k < 8 && ends(lowered(n), #[trigger] run_extensions()[k]);
    if !some_ends(names, run_extensions()[from]) {
        assert(k != from);
        lemma_first_kind(names, n, from + 1);
    }
}

/// A download that is no archive is an image itself where its link ends like one, and is then
/// kept as it is.
pub proof fn law_plain_images_are_kept(d: Production, link: Seq<char>, data: Seq<u8>, e: Seq<char>)
    requires
        !(data.len() >= 2 && data[0] == 0x50 && data[1] == 0x4b),
        extension_in(link) == Some(e),
    ensures
        ({
            let l = lowered(e);
            let starts = l == "d64"@ || l == "g64"@ || l == "d81"@ || l == "d71"@ || l == "prg"@ || l
                == "crt"@ || l == "t64"@ || l == "tap"@;
            outcome(d, link, data) == if starts {
                Outcome::Image(decimal(d.id as nat) + "_"@ + plain_name(d.name) + "."@ + l, data)
            } else {
                Outcome::NotAnImage
            }
        }),
{
    let l = lowered(e);
    let exts = run_extensions();
    reveal_strlit(".");
    reveal_strlit("d64");
    reveal_strlit("g64");
    reveal_strlit("d81");
    reveal_strlit("d71");
    reveal_strlit("prg");
    reveal_strlit("crt");
    reveal_strlit("t64");
    reveal_strlit("tap");
    reveal_strlit(".d64");
    reveal_strlit(".g64");
    reveal_strlit(".d81");
    reveal_strlit(".d71");
    reveal_strlit(".prg");
    reveal_strlit(".crt");
    reveal_strlit(".t64");
    reveal_strlit(".tap");
    assert(exts[0] =~= "."@ + "d64"@ && exts[1] =~= "."@ + "g64"@ && exts[2] =~= "."@ + "d81"@
        && exts[3] =~= "."@ + "d71"@ && exts[4] =~= "."@ + "prg"@ && exts[5] =~= "."@ + "crt"@
        && exts[6] =~= "."@ + "t64"@ && exts[7] =~= "."@ + "tap"@);
    let dotted = "."@ + l;
    assert(dotted.skip(1) =~= l);
    if exts.contains(dotted) {
        let k = exts.index_of(dotted);
        assert(exts[k].skip(1) == l);
        assert(exts[0].skip(1) =~= "d64"@ && exts[1].skip(1) =~= "g64"@ && exts[2].skip(1)
            =~= "d81"@ && exts[3].skip(1) =~= "d71"@ && exts[4].skip(1) =~= "prg"@
            && exts[5].skip(1) =~= "crt"@ && exts[6].skip(1) =~= "t64"@ && exts[7].skip(1)
            =~= "tap"@);
    }
    assert(image_name_of(d, dotted) =~= decimal(d.id as nat) + "_"@ + plain_name(d.name) + "."@ + l);
    if data.len() >= 2 {
        assert(data.take(2)[0] == data[0] && data.take(2)[1] == data[1]);
        assert(zip_magic()[0] == 0x50 && zip_magic()[1] == 0x4b);
    }
}

/// A name for a file keeps letters and digits of ASCII in their places; everything else
/// becomes an underscore.
pub proof fn law_plain_names(s: Seq<char>, i: int)
    requires
        0 <= i < s.len(),
    ensures
        ({
            let c = s[i];
            let plain = ('0' <= c <= '9') || ('A' <= c <= 'Z') || ('a' <= c <= 'z');
            &&& plain_name(s).len() == s.len()
            &&& plain_name(s)[i] == if plain {
                s[i]
            } else {
                '_'
            }
        }),
{
}

// ---- the summary of a party -----------------------------------------------------------------------------------------

proof fn lemma_filled(s: Seq<Seq<char>>, t: Seq<char>)
    ensures
        filled_texts(s).contains(t) <==> s.contains(t) && t.len() > 0,
    decreases s.len(),
{
    if s.len() > 0 {
        let init = s.drop_last();
        lemma_filled(init, t);
        let kept = filled_texts(init);
        let all = filled_texts(s);
        assert(s[s.len() - 1] == s.last());
        if init.contains(t) {
            assert(s[init.index_of(t)] == t);
        }
        if s.contains(t) && t != s.last() {
            assert(init[s.index_of(t)] == t);
        }
        if kept.contains(t) {
            assert(all[kept.index_of(t)] == t);
        }
        if all.contains(t) && !kept.contains(t) {
            let i = all.index_of(t);
            if i < kept.len() {
                assert(kept[i] == t);
            }
        }
        if s.last().len() > 0 {
            assert(all[all.len() - 1] == s.last());
        }
    }
}

/// How often a text stands in a list.
pub open spec fn occurrences(s: Seq<Seq<char>>, t: Seq<char>) -> nat {
    s.filter(|x: Seq<char>| x == t).len()
}

proof fn lemma_places_count(s: Seq<Seq<char>>, t: Seq<char>)
    requires
        t.len() > 0,
    ensures
        crate::grouping::places(filled_texts(s), t).len() == occurrences(s, t),
    decreases s.len(),
{
    reveal(Seq::filter);
    if s.len() > 0 {
        lemma_places_count(s.drop_last(), t);
        let f = filled_texts(s);
        if s.last().len() > 0 {
            assert(f.drop_last() =~= filled_texts(s.drop_last()));
        }
    }
}

proof fn lemma_greatest_upto(gs: Seq<(Seq<char>, Seq<int>)>, n: int)
    requires
        1 <= n <= gs.len(),
    ensures
        0 <= greatest_upto(gs, n) < n,
        forall|i: int| 0 <= i < n ==> (#[trigger] gs[i]).1.len() <= gs[greatest_upto(gs, n)].1.len(),
        forall|i: int|
            0 <= i < greatest_upto(gs, n) ==> (#[trigger] gs[i]).1.len() < gs[greatest_upto(
                gs,
                n,
            )].1.len(),
    decreases n,
{
    if n > 1 {
        lemma_greatest_upto(gs, n - 1);
    }
}

/// The most common of some texts is one of them and not empty, unless all are; no other
/// occurs more often.
pub proof fn law_the_most_common_is_common(s: Seq<Seq<char>>, i: int)
    requires
        0 <= i < s.len(),
        s[i].len() > 0,
    ensures
        s.contains(most_common_of(s)),
        most_common_of(s).len() > 0,
        occurrences(s, s[i]) <= occurrences(s, most_common_of(s)),
{
    let f = filled_texts(s);
    let gs = grouped(f);
    lemma_filled(s, s[i]);
    crate::grouping::lemma_first_seen(f);
    assert(f.contains(s[i]));
    let fs = first_seen(f);
    assert(fs.contains(s[i]));
    let k = fs.index_of(s[i]);
    assert(gs[k] == (s[i], crate::grouping::places(f, s[i])));
    lemma_greatest_upto(gs, gs.len() as int);
    let b = greatest_upto(gs, gs.len() as int);
    let t = fs[b];
    assert(gs[b] == (t, crate::grouping::places(f, t)));
    assert(fs.contains(t));
    assert(f.contains(t));
    lemma_filled(s, t);
    lemma_places_count(s, s[i]);
    lemma_places_count(s, t);
}

/// The years of a party: the first that is known and the last, and one alone where they are
/// the same.
pub proof fn law_years_span_all(ys: Seq<u32>, i: int)
    requires
        0 <= i < ys.len(),
        ys[i] > 0,
    ensures
        ({
            let lo = least_year(ys);
            let hi = latest_year(ys);
            &&& 0 < lo <= ys[i] <= hi
            &&& ys.contains(lo) && ys.contains(hi)
            &&& lo == hi ==> year_span(ys) == decimal(lo as nat)
            &&& lo < hi ==> year_span(ys) == decimal(lo as nat) + "\u{2013}"@ + decimal(hi as nat)
        }),
{
    lemma_years(ys);
}

proof fn lemma_years(ys: Seq<u32>)
    ensures
        forall|i: int| 0 <= i < ys.len() ==> #[trigger] ys[i] <= latest_year(ys),
        forall|i: int|
            0 <= i < ys.len() && #[trigger] ys[i] > 0 ==> 0 < least_year(ys) <= ys[i],
        latest_year(ys) > 0 ==> ys.contains(latest_year(ys)),
        least_year(ys) > 0 ==> ys.contains(least_year(ys)),
    decreases ys.len(),
{
    if ys.len() > 0 {
        let init = ys.drop_last();
        lemma_years(init);
        assert(ys[ys.len() - 1] == ys.last());
        assert forall|i: int| 0 <= i < init.len() implies #[trigger] ys[i] == init[i] by {}
        if init.contains(latest_year(init)) {
            assert(ys[init.index_of(latest_year(init))] == latest_year(init));
        }
        if init.contains(least_year(init)) {
            assert(ys[init.index_of(least_year(init))] == least_year(init));
        }
    }
}

/// The website of a party is that of a demo which has one, and no demo with a website is
/// from a later year.
pub proof fn law_the_latest_website_is_shown(ds: Seq<Production>, i: int)
    requires
        0 <= i < ds.len(),
        ds[i].website.len() > 0,
    ensures
        latest_with_site(ds) matches Some(d) && ds.contains(d) && d.website.len() > 0 && ds[i].year
            <= d.year && summary_of(ds).website == d.website,
    decreases ds.len(),
{
    let init = ds.drop_last();
    assert(ds[ds.len() - 1] == ds.last());
    if i < init.len() {
        assert(init[i] == ds[i]);
        law_the_latest_website_is_shown(init, i);
        let d = latest_with_site(init)->0;
        assert(ds[init.index_of(d)] == d);
    } else {
        lemma_site_is_of_one(init);
        if let Some(d) = latest_with_site(init) {
            assert(ds[init.index_of(d)] == d);
        }
    }
}

proof fn lemma_site_is_of_one(ds: Seq<Production>)
    ensures
        latest_with_site(ds) matches Some(d) ==> ds.contains(d) && d.website.len() > 0,
    decreases ds.len(),
{
    if ds.len() > 0 {
        let init = ds.drop_last();
        lemma_site_is_of_one(init);
        assert(ds[ds.len() - 1] == ds.last());
        if let Some(d) = latest_with_site(init) {
            assert(ds[init.index_of(d)] == d);
        }
    }
}

/// The groups of a party are those of its demos, each once and none empty.
pub proof fn law_groups_are_listed_once(ds: Seq<Production>, g: Seq<char>)
    ensures
        summary_of(ds).groups.no_duplicates(),
        summary_of(ds).groups.contains(g) <==> g.len() > 0 && exists|i: int|
            0 <= i < ds.len() && (#[trigger] ds[i]).group == g,
{
    let all = ds.map_values(|d: Production| d.group);
    lemma_filled(all, g);
    crate::grouping::lemma_first_seen(filled_texts(all));
    if all.contains(g) {
        let i = all.index_of(g);
        assert(ds[i].group == g);
    }
    if exists|i: int| 0 <= i < ds.len() && (#[trigger] ds[i]).group == g {
        let i = choose|i: int| 0 <= i < ds.len() && (#[trigger] ds[i]).group == g;
        assert(all[i] == g);
    }
}

/// A place is the city and the country, or the one that is known.
pub proof fn law_places_are_named(city: Seq<char>, country: Seq<char>)
    ensures
        city.len() > 0 && country.len() > 0 ==> location_of(city, country) == city + ", "@ + country,
        city.len() == 0 ==> location_of(city, country) == country,
        country.len() == 0 ==> location_of(city, country) == city,
{
    assert(city.len() == 0 ==> city =~= Seq::empty());
    assert(country.len() == 0 ==> country =~= Seq::empty());
}

/// The headline is made of the kind of the party, its place and its years, as far as they are
/// known, with a dot between them.
pub proof fn law_headlines_name_what_is_known(ds: Seq<Production>)
    ensures
        ({
            let kind = most_common_of(ds.map_values(|d: Production| d.event_type));
            let place = location_of(
                most_common_of(ds.map_values(|d: Production| d.city)),
                most_common_of(ds.map_values(|d: Production| d.country)),
            );
            let years = year_span(ds.map_values(|d: Production| d.year));
            let h = summary_of(ds).headline;
            let dot = "   \u{00b7}   "@;
            &&& kind.len() > 0 && place.len() > 0 && years.len() > 0 ==> h == kind + dot + place + dot
                + years
            &&& kind.len() == 0 && place.len() > 0 && years.len() > 0 ==> h == place + dot + years
            &&& kind.len() > 0 && place.len() == 0 && years.len() > 0 ==> h == kind + dot + years
            &&& kind.len() > 0 && place.len() > 0 && years.len() == 0 ==> h == kind + dot + place
        }),
{
    let kind = most_common_of(ds.map_values(|d: Production| d.event_type));
    let place = location_of(
        most_common_of(ds.map_values(|d: Production| d.city)),
        most_common_of(ds.map_values(|d: Production| d.country)),
    );
    let years = year_span(ds.map_values(|d: Production| d.year));
    let all = seq![kind, place, years];
    let dot = "   \u{00b7}   "@;
    assert(all.drop_last() =~= seq![kind, place]);
    assert(all.drop_last().drop_last() =~= seq![kind]);
    assert(all.drop_last().drop_last().drop_last() =~= Seq::empty());
    reveal_with_fuel(filled_texts, 4);
    reveal_with_fuel(joined, 4);
    let f = filled_texts(all);
    if kind.len() > 0 && place.len() > 0 && years.len() > 0 {
        assert(f =~= all);
    } else if kind.len() == 0 && place.len() > 0 && years.len() > 0 {
        assert(f =~= seq![place, years]);
        assert(f.drop_last() =~= seq![place]);
    } else if kind.len() > 0 && place.len() == 0 && years.len() > 0 {
        assert(f =~= seq![kind, years]);
        assert(f.drop_last() =~= seq![kind]);
    } else if kind.len() > 0 && place.len() > 0 && years.len() == 0 {
        assert(f =~= seq![kind, place]);
        assert(f.drop_last() =~= seq![kind]);
    }
}

/// Parties with at least three ranked demos have a section, which holds at most fifty; the
/// party with more of them comes first.
pub proof fn law_demo_sections(ds: Seq<Production>)
    ensures
        demo_sections(ds) == party_sections(
            ds.map_values(|d: Production| d.party),
            ds.map_values(|d: Production| rank_of(d.rating)),
            3,
            50,
            false,
        ),
{
}

/// What a release says of a demo: the edition of its party and the party's name, the year, the
/// place and the address of the screenshot, each in its element.
pub proof fn law_releases_of_demos(xml: Seq<char>)
    ensures
        ({
            let r = release_in(xml);
            let year = between_of(xml, "<ReleaseYear>"@, "</ReleaseYear>"@);
            let place = between_of(xml, "<Place>"@, "</Place>"@);
            let shot = between_of(xml, "<ScreenShot>"@, "</ScreenShot>"@);
            let party = of_party(xml, "<Name>"@, "</Name>"@);
            let event = of_party(xml, "<ID>"@, "</ID>"@);
            &&& year matches Some(t) ==> r.year == number_or_zero(trimmed(t))
            &&& place matches Some(t) ==> r.place == number_or_zero(trimmed(t))
            &&& shot matches Some(t) ==> r.shot == unescaped(trimmed(t))
            &&& party matches Some(t) ==> r.party == unescaped(t)
            &&& event matches Some(t) ==> r.event == number_or_zero(trimmed(t))
            &&& year is None ==> r.year == 0
            &&& place is None ==> r.place == 0
            &&& shot is None ==> r.shot.len() == 0
            &&& party is None ==> r.party.len() == 0
            &&& event is None ==> r.event == 0
        }),
{
}

/// What an event says of a party: its kind, its city and country and its website.
pub proof fn law_venues_of_parties(xml: Seq<char>)
    ensures
        ({
            let v = venue_in(xml);
            let kind = between_of(xml, "<EventType>"@, "</EventType>"@);
            let city = between_of(xml, "<City>"@, "</City>"@);
            let country = between_of(xml, "<Country>"@, "</Country>"@);
            let site = between_of(xml, "<Website>"@, "</Website>"@);
            &&& kind matches Some(t) ==> v.event_type == unescaped(trimmed(t))
            &&& city matches Some(t) ==> v.city == unescaped(trimmed(t))
            &&& country matches Some(t) ==> v.country == unescaped(trimmed(t))
            &&& site matches Some(t) ==> v.website == unescaped(trimmed(t))
            &&& kind is None ==> v.event_type.len() == 0
            &&& city is None ==> v.city.len() == 0
            &&& country is None ==> v.country.len() == 0
            &&& site is None ==> v.website.len() == 0
        }),
{
}

/// A demo is downloaded from the first of its links that is on the web.
pub proof fn law_the_first_web_link_is_taken(ls: Seq<Seq<char>>, l: Seq<char>)
    ensures
        begins(l, "http"@) ==> first_http(seq![l] + ls) == Some(l),
        !begins(l, "http"@) ==> first_http(seq![l] + ls) == first_http(ls),
        first_http(Seq::empty()) is None,
{
    assert((seq![l] + ls).skip(1) =~= ls);
}

/// A screenshot is kept under the demo's number, with the ending of a picture that its address
/// has, and else ".png"; a demo without an address has none.
pub proof fn law_screenshots_are_kept(d: Production)
    ensures
        d.shot.len() == 0 ==> shot_file_of(d) is None,
        d.shot.len() > 0 && extension_in(d.shot) is None ==> shot_file_of(d) == Some(
            decimal(d.id as nat) + "."@ + "png"@,
        ),
        d.shot.len() > 0 && extension_in(d.shot) is Some ==> ({
            let e = lowered(extension_in(d.shot)->0);
            let known = e == "png"@ || e == "gif"@ || e == "jpg"@ || e == "jpeg"@;
            &&& known ==> shot_file_of(d) == Some(decimal(d.id as nat) + "."@ + e)
            &&& !known ==> shot_file_of(d) == Some(decimal(d.id as nat) + "."@ + "png"@)
        }),
{
}

/// The lines on a party: the headline, the groups and the website, as far as they are known,
/// each cut to what its label leaves of the screen; and a row for each with a gap behind.
pub proof fn law_lines_on_a_party(f: PartyFacts, width: int, lines: int, height: int)
    requires
        12 <= width,
        0 <= lines,
        1 <= height,
    ensures
        f.headline.len() == 0 && f.groups.len() == 0 && f.website.len() == 0 ==> info_lines_of(
            f,
            width,
        ).len() == 0,
        f.headline.len() > 0 ==> info_lines_of(f, width)[0] == (
            Seq::<char>::empty(),
            cut(f.headline, width - 4),
        ),
        f.headline.len() == 0 && f.groups.len() > 0 ==> info_lines_of(f, width)[0] == (
            "Groups: "@,
            cut(joined(f.groups, ", "@), width - 12),
        ),
        f.website.len() > 0 ==> info_lines_of(f, width).last() == ("Web: "@, cut(f.website, width - 9)),
        info_rows_of(0, height) == 0,
        0 < lines && lines + 1 < height ==> info_rows_of(lines, height) == lines + 1,
        0 < lines && lines + 1 >= height ==> info_rows_of(lines, height) == height - 1,
{
}

/// A card shows the demo's name with a star for a winner, and the group, the last two figures
/// of the year and the rating below.
pub proof fn law_cards_of_demos(d: Production)
    ensures
        d.place == 1 ==> card_name_of(d) == "\u{2605} "@ + d.name,
        d.place != 1 ==> card_name_of(d) == d.name,
        begins(card_meta_of(d), d.group),
        ends(card_meta_of(d), rating_text(d.rating)),
        d.year > 0 ==> detail_line_of(d) == d.group + " \u{00b7} "@ + decimal(d.year as nat)
            + " \u{00b7} "@ + d.party,
        d.year == 0 ==> detail_line_of(d) == d.group + " \u{00b7} "@ + "\u{2014}"@ + " \u{00b7} "@ + d.party,
{
    let m = card_meta_of(d);
    assert(m.take(d.group.len() as int) =~= d.group);
    assert(m.skip(m.len() - rating_text(d.rating).len()) =~= rating_text(d.rating));
}

} // verus!
