//! The scene database: its addresses, its answers, and the ranked releases sorted
//! into the parties that they were released at.

use crate::grouping::{
    first_seen, group, group_view, grouped, groups_view, lemma_first_seen, lemma_places, places,
};
use crate::order::{
    before, by_counts, by_pairs, ints, is_order, law_order_exists, order_by_counts,
    order_by_pairs, stable_order,
};
use crate::sections::{arranged, if_any, lemma_order_below, pick, pick_sections, Section};
use crate::single::{
    law_written_numbers_stay, parse_single, single_in, single_text, write_single, INFINITE,
};
use crate::table::fits_field;
use crate::text::{
    all_digits, append, char_from, chars_of, decimal, decimal_text, digits_until, find,
    find_char, find_from, is_space, lemma_char_from, lemma_find_from, number_of, opt_text,
    parse_u64, same, space, split, split_all, string_of, string_range, texts, trim, trimmed,
    two_digit_text, two_digits,
};
use crate::titles::{html_unescape, unescaped};
use vstd::prelude::*;

verus! {

// ---- answers ---------------------------------------------------------------------------------

/// Where the text between two marks begins and ends: behind the first opening mark
/// at or after `from`, up to the next closing mark.
pub open spec fn between_from(s: Seq<char>, open: Seq<char>, close: Seq<char>, from: int) -> Option<
    (int, int),
> {
    match find_from(s, open, from) {
        Some(i) => match find_from(s, close, i + open.len()) {
            Some(j) => Some((i + open.len(), j)),
            None => None,
        },
        None => None,
    }
}

/// The text between the first opening mark and the closing mark that follows it.
pub open spec fn between_of(s: Seq<char>, open: Seq<char>, close: Seq<char>) -> Option<Seq<char>> {
    match between_from(s, open, close, 0) {
        Some(at) => Some(s.subrange(at.0, at.1)),
        None => None,
    }
}

/// Finds the text between two marks.
pub fn find_between(s: &Vec<char>, open: &Vec<char>, close: &Vec<char>, from: usize) -> (r: Option<
    (usize, usize),
>)
    requires
        from <= s@.len(),
    ensures
        match r {
            Some(at) => between_from(s@, open@, close@, from as int) == Some(
                (at.0 as int, at.1 as int),
            ) && from <= at.0 <= at.1 && at.1 + close@.len() <= s@.len(),
            None => between_from(s@, open@, close@, from as int) is None,
        },
{
    let n: usize = s.len();
    proof {
        lemma_find_from(s@, open@, from as int);
    }
    match find(s, open, from) {
        Some(i) => {
            let start: usize = i + open.len();
            proof {
                lemma_find_from(s@, close@, start as int);
            }
            match find(s, close, start) {
                Some(j) => Some((start, j)),
                None => None,
            }
        },
        None => None,
    }
}

/// The text between the first opening mark and the closing mark that follows it.
pub fn between(s: &str, open: &str, close: &str) -> (r: Option<String>)
    ensures
        opt_text(r) == between_of(s@, open@, close@),
{
    let v = chars_of(s);
    match find_between(&v, &chars_of(open), &chars_of(close), 0) {
        Some((from, to)) => Some(string_range(&v, from, to)),
        None => None,
    }
}

/// The number that a text is, where it fits 32 bits; else zero.
pub open spec fn number_or_zero(s: Seq<char>) -> u32 {
    match number_of(s) {
        Some(n) if n <= u32::MAX && s[0] != '-' => n as u32,
        _ => 0,
    }
}

pub fn parse_or_zero(s: &str) -> (r: u32)
    ensures
        r == number_or_zero(s@),
{
    match parse_u64(s) {
        Some(n) => if n <= 0xffff_ffff {
            n as u32
        } else {
            0
        },
        None => 0,
    }
}

/// The number in an element; zero when it has none.
pub open spec fn element_number(s: Option<Seq<char>>) -> u32 {
    match s {
        Some(t) => number_or_zero(trimmed(t)),
        None => 0,
    }
}

pub fn read_number(s: &Option<String>) -> (r: u32)
    ensures
        r == element_number(opt_text(*s)),
{
    match s {
        Some(t) => parse_or_zero(trim(t.as_str()).as_str()),
        None => 0,
    }
}

/// The text in an element, decoded; empty when there is no such element.
pub open spec fn element_text(s: Option<Seq<char>>) -> Seq<char> {
    match s {
        Some(t) => unescaped(trimmed(t)),
        None => Seq::empty(),
    }
}

pub fn read_text(s: &Option<String>) -> (r: String)
    ensures
        r@ == element_text(opt_text(*s)),
{
    match s {
        Some(t) => html_unescape(trim(t.as_str()).as_str()),
        None => {
            let r = String::new();
            assert(r@ =~= Seq::empty());
            r
        },
    }
}

/// The download links of a release from `from` on, in order.
pub open spec fn links_from(s: Seq<char>, from: int) -> Seq<Seq<char>>
    decreases s.len() + 7 - from,
{
    match (between_from(s, "<Link>"@, "</Link>"@, from), find_from(s, "</Link>"@, from)) {
        (Some(at), Some(end)) => if from <= end < s.len() {
            seq![unescaped(trimmed(s.subrange(at.0, at.1)))] + links_from(s, end + 7)
        } else {
            Seq::empty()
        },
        _ => Seq::empty(),
    }
}

/// The download links of a release.
pub fn links(xml: &str) -> (r: Vec<String>)
    ensures
        texts(r@) == links_from(xml@, 0),
{
    let v = chars_of(xml);
    let open = chars_of("<Link>");
    let close = chars_of("</Link>");
    proof {
        reveal_strlit("</Link>");
    }
    let mut r: Vec<String> = Vec::new();
    let mut from: usize = 0;
    let n: usize = v.len();
    assert(texts(r@) =~= Seq::empty());
    loop
        invariant
            v@ == xml@,
            n == v@.len(),
            open@ == "<Link>"@,
            close@ == "</Link>"@,
            "</Link>"@.len() == 7,
            from <= v@.len(),
            links_from(xml@, 0) =~= texts(r@) + links_from(xml@, from as int),
        decreases v@.len() - from,
    {
        proof {
            lemma_find_from(v@, close@, from as int);
        }
        match (find_between(&v, &open, &close, from), find(&v, &close, from)) {
            (Some((a, b)), Some(end)) => {
                let link = html_unescape(trim(string_range(&v, a, b).as_str()).as_str());
                let ghost was = r@;
                assert(texts(was.push(link)) =~= texts(was).push(link@));
                r.push(link);
                from = end + close.len();
            },
            _ => {
                assert(links_from(xml@, from as int) =~= Seq::empty());
                assert(links_from(xml@, 0) =~= texts(r@));
                return r;
            },
        }
    }
}

// ---- addresses -----------------------------------------------------------------------------

/// The address of what the database says of an event.
pub open spec fn event_address(id: u32) -> Seq<char> {
    "https://csdb.dk/webservice/?type=event&id="@ + decimal(id as nat) + "&depth=1"@
}

pub fn event_ws(id: u32) -> (r: String)
    ensures
        r@ == event_address(id),
{
    let a = append("https://csdb.dk/webservice/?type=event&id=", decimal_text(id as u64).as_str());
    append(a.as_str(), "&depth=1")
}

/// The address of what the database says of a release, to a depth.
pub open spec fn release_address(id: u32, depth: u32) -> Seq<char> {
    "https://csdb.dk/webservice/?type=release&id="@ + decimal(id as nat) + "&depth="@ + decimal(
        depth as nat,
    )
}

pub fn release_ws(id: u32, depth: u32) -> (r: String)
    ensures
        r@ == release_address(id, depth),
{
    let a = append("https://csdb.dk/webservice/?type=release&id=", decimal_text(id as u64).as_str());
    let b = append(a.as_str(), "&depth=");
    append(b.as_str(), decimal_text(depth as u64).as_str())
}

// ---- ratings -------------------------------------------------------------------------------

/// A rating as it is written. Ratings are numbers in single precision, held by their bits.
pub open spec fn rating_text(r: u32) -> Seq<char> {
    single_text(r)
}

pub fn write_rating(r: u32) -> (t: String)
    ensures
        t@ == rating_text(r),
{
    write_single(r)
}

/// The rating that a text is; zero when it is no number.
pub open spec fn rating_of(s: Seq<char>) -> u32 {
    match single_in(s) {
        Some(r) => r,
        None => 0,
    }
}

/// Reads a rating.
pub fn parse_rating(t: &str) -> (r: u32)
    ensures
        r == rating_of(t@),
{
    match parse_single(t) {
        Some(r) => r,
        None => 0,
    }
}

/// A rating comes back from how it is written: it is written the same again.
pub proof fn law_ratings_come_back(r: u32)
    ensures
        rating_text(rating_of(rating_text(r))) == rating_text(r),
{
    law_written_numbers_stay(r);
}

/// A rating that is better than none.
pub open spec fn is_rated(r: u32) -> bool {
    0 < r <= INFINITE
}

// ---- parties -------------------------------------------------------------------------------

/// The series that an edition of a party belongs to: its name without the year at
/// the end.
pub open spec fn series_of(name: Seq<char>) -> Seq<char> {
    let t = trimmed(name);
    let n = t.len() as int;
    if n > 4 && is_space(t[n - 5]) && all_digits(t.skip(n - 4)) {
        trimmed(t.take(n - 5))
    } else {
        t
    }
}

/// The series that an edition of a party belongs to.
pub fn party_series(name: &str) -> (r: String)
    ensures
        r@ == series_of(name@),
{
    let t = trim(name);
    let v = chars_of(t.as_str());
    let n: usize = v.len();
    if n > 4 {
        assert(v@.subrange(n - 4, n as int) =~= t@.skip(n - 4));
        if space(v[n - 5]) && digits_until(&v, n - 4, n) {
            let front = string_range(&v, 0, n - 5);
            assert(front@ =~= t@.take(n - 5));
            return trim(front.as_str());
        }
    }
    t
}

/// The name of the section of what was released at no party, or at a small one.
pub open spec fn outside_name() -> Seq<char> {
    "Released Outside Parties"@
}

pub open spec fn rating_keys(ratings: Seq<u32>, idxs: Seq<int>) -> Seq<(i64, i64)> {
    idxs.map_values(|i: int| ((-(ratings[i] as int)) as i64, 0i64))
}

/// Releases by rating, the best first. Here and below `ratings` holds their ranks: whole
/// numbers, the greater the better.
pub open spec fn by_rating(ratings: Seq<u32>, idxs: Seq<int>) -> Seq<int> {
    arranged(idxs, stable_order(idxs.len(), by_pairs(rating_keys(ratings, idxs))))
}

/// A party with a section of its own: one that has enough releases.
pub open spec fn is_listed(parties: Seq<Seq<char>>, party: Seq<char>, min: int) -> bool {
    party.len() > 0 && places(parties, party).len() >= min
}

/// The parties among `names` that have a section, each with its releases by rating.
pub open spec fn listed(
    parties: Seq<Seq<char>>,
    ratings: Seq<u32>,
    min: int,
    names: Seq<Seq<char>>,
) -> Seq<Section>
    decreases names.len(),
{
    if names.len() == 0 {
        Seq::empty()
    } else {
        let init = listed(parties, ratings, min, names.drop_last());
        if is_listed(parties, names.last(), min) {
            init.push((names.last(), by_rating(ratings, places(parties, names.last()))))
        } else {
            init
        }
    }
}

/// The first `n` releases that are in no section of a party.
pub open spec fn unlisted(parties: Seq<Seq<char>>, min: int, n: int) -> Seq<int>
    decreases n,
{
    if n <= 0 {
        Seq::empty()
    } else if is_listed(parties, parties[n - 1], min) {
        unlisted(parties, min, n - 1)
    } else {
        unlisted(parties, min, n - 1).push(n - 1)
    }
}

/// What a section of a party is sorted by: the number of its releases and the
/// rating of the best of them, whichever decides.
pub open spec fn section_key(ratings: Seq<u32>, s: Section, best_first: bool) -> (u64, u64) {
    let count = s.1.len() as u64;
    let best = if s.1.len() > 0 {
        ratings[s.1[0]] as u64
    } else {
        0
    };
    if best_first {
        (best, count)
    } else {
        (count, best)
    }
}

pub open spec fn section_keys(ratings: Seq<u32>, ss: Seq<Section>, best_first: bool) -> Seq<
    (u64, u64),
> {
    ss.map_values(|s: Section| section_key(ratings, s, best_first))
}

/// The beginning of a list.
pub open spec fn capped(s: Seq<int>, top: int) -> Seq<int> {
    if s.len() <= top {
        s
    } else {
        s.take(top)
    }
}

pub open spec fn each_capped(ss: Seq<Section>, top: int) -> Seq<Section> {
    ss.map_values(|s: Section| (s.0, capped(s.1, top)))
}

/// The sections of the parties in their order, not yet cut.
pub open spec fn ranked_parties(
    parties: Seq<Seq<char>>,
    ratings: Seq<u32>,
    min: int,
    best_first: bool,
) -> Seq<Section> {
    let ss = listed(parties, ratings, min, first_seen(parties));
    arranged(ss, stable_order(ss.len(), by_counts(section_keys(ratings, ss, best_first))))
}

/// The sections of ranked releases: the parties with at least `min` of them, the
/// greatest first or the one with the best release first, and behind them what was
/// released elsewhere. Each section holds its `top` best releases.
pub open spec fn party_sections(
    parties: Seq<Seq<char>>,
    ratings: Seq<u32>,
    min: int,
    top: int,
    best_first: bool,
) -> Seq<Section> {
    each_capped(ranked_parties(parties, ratings, min, best_first), top) + if_any(
        outside_name(),
        capped(by_rating(ratings, unlisted(parties, min, parties.len() as int)), top),
    )
}

/// Sorts releases by the ranks of their ratings.
pub fn sort_by_rating(ratings: &Vec<u32>, idxs: &Vec<usize>) -> (r: Vec<usize>)
    requires
        forall|k: int| 0 <= k < idxs@.len() ==> #[trigger] idxs@[k] < ratings@.len(),
    ensures
        ints(r@) == by_rating(ratings@, ints(idxs@)),
        forall|k: int| 0 <= k < r@.len() ==> #[trigger] r@[k] < ratings@.len(),
        r@.len() == idxs@.len(),
{
    let mut keys: Vec<(i64, i64)> = Vec::new();
    let mut i: usize = 0;
    while i < idxs.len()
        invariant
            forall|k: int| 0 <= k < idxs@.len() ==> #[trigger] idxs@[k] < ratings@.len(),
            i <= idxs@.len(),
            keys@.len() == i,
            forall|k: int|
                0 <= k < i ==> #[trigger] keys@[k] == rating_keys(ratings@, ints(idxs@))[k],
        decreases idxs@.len() - i,
    {
        let at = idxs[i];
        keys.push((-(ratings[at] as i64), 0));
        i += 1;
    }
    assert(keys@ =~= rating_keys(ratings@, ints(idxs@)));
    let p = order_by_pairs(&keys);
    pick(idxs, &p)
}

fn cap(v: &mut Vec<usize>, top: usize)
    ensures
        ints(final(v)@) == capped(ints(old(v)@), top as int),
{
    let ghost was = v@;
    if v.len() > top {
        v.truncate(top);
    }
    assert(ints(v@) =~= capped(ints(was), top as int));
}

proof fn lemma_listed_grows(
    parties: Seq<Seq<char>>,
    ratings: Seq<u32>,
    min: int,
    names: Seq<Seq<char>>,
    n: int,
)
    requires
        0 <= n < names.len(),
    ensures
        listed(parties, ratings, min, names.take(n + 1)) == if is_listed(parties, names[n], min) {
            listed(parties, ratings, min, names.take(n)).push(
                (names[n], by_rating(ratings, places(parties, names[n]))),
            )
        } else {
            listed(parties, ratings, min, names.take(n))
        },
{
    assert(names.take(n + 1).drop_last() =~= names.take(n));
}

/// The sections of the parties that have enough releases, and what they are sorted
/// by.
fn list_parties(
    groups: &Vec<(String, Vec<usize>)>,
    ratings: &Vec<u32>,
    min: usize,
    best_first: bool,
    parties: Ghost<Seq<Seq<char>>>,
) -> (r: (Vec<(String, Vec<usize>)>, Vec<(u64, u64)>))
    requires
        groups_view(groups@) == grouped(parties@),
        parties@.len() == ratings@.len(),
    ensures
        ({
            let ss = listed(parties@, ratings@, min as int, first_seen(parties@));
            groups_view(r.0@) == ss && r.1@ == section_keys(ratings@, ss, best_first)
        }),
{
    let ghost names = first_seen(parties@);
    let mut ss: Vec<(String, Vec<usize>)> = Vec::new();
    let mut keys: Vec<(u64, u64)> = Vec::new();
    let mut i: usize = 0;
    assert(groups_view(groups@).len() == groups@.len());
    assert(names.take(0) =~= Seq::empty());
    assert(groups_view(ss@) =~= Seq::empty());
    assert(keys@ =~= section_keys(ratings@, Seq::empty(), best_first));
    while i < groups.len()
        invariant
            groups_view(groups@) == grouped(parties@),
            groups@.len() == names.len(),
            names == first_seen(parties@),
            parties@.len() == ratings@.len(),
            i <= groups@.len(),
            groups_view(ss@) == listed(parties@, ratings@, min as int, names.take(i as int)),
            keys@ == section_keys(ratings@, groups_view(ss@), best_first),
        decreases groups@.len() - i,
    {
        let g = &groups[i];
        proof {
            assert(groups_view(groups@)[i as int] == grouped(parties@)[i as int]);
            assert(group_view(groups@[i as int]) == (names[i as int], places(
                parties@,
                names[i as int],
            )));
            lemma_places(parties@, names[i as int]);
            lemma_listed_grows(parties@, ratings@, min as int, names, i as int);
            assert(g.1@.len() == ints(g.1@).len());
            assert forall|k: int| 0 <= k < g.1@.len() implies #[trigger] g.1@[k]
                < ratings@.len() by {
                assert(ints(g.1@)[k] == g.1@[k]);
            }
        }
        if !g.0.as_str().is_empty() && g.1.len() >= min {
            let idxs = sort_by_rating(ratings, &g.1);
            let ghost was = ss@;
            let ghost section = (g.0@, ints(idxs@));
            let count: u64 = idxs.len() as u64;
            let best: u64 = if idxs.len() > 0 {
                assert(ints(idxs@)[0] == idxs@[0]);
                ratings[idxs[0]] as u64
            } else {
                0
            };
            let key = if best_first {
                (best, count)
            } else {
                (count, best)
            };
            assert(ints(idxs@).len() == idxs@.len());
            assert(key == section_key(ratings@, section, best_first));
            ss.push((g.0.clone(), idxs));
            keys.push(key);
            proof {
                assert(groups_view(ss@) =~= groups_view(was).push(section));
                assert(keys@ =~= section_keys(ratings@, groups_view(ss@), best_first));
            }
        }
        i += 1;
    }
    assert(names.take(i as int) =~= names);
    (ss, keys)
}

/// Groups ranked releases by the parties that they were released at.
pub fn group_by_party(
    parties: &Vec<String>,
    ratings: &Vec<u32>,
    min: usize,
    top: usize,
    best_first: bool,
) -> (r: Vec<(String, Vec<usize>)>)
    requires
        parties@.len() == ratings@.len(),
    ensures
        groups_view(r@) == party_sections(
            texts(parties@),
            ratings@,
            min as int,
            top as int,
            best_first,
        ),
{
    let ghost ps = texts(parties@);
    let groups = group(parties);
    let (ss, keys) = list_parties(&groups, ratings, min, best_first, Ghost(ps));
    assert(groups_view(ss@).len() == ss@.len());
    let p = order_by_counts(&keys);
    let mut r = pick_sections(&ss, &p);
    let ghost ranked = ranked_parties(ps, ratings@, min as int, best_first);
    assert(groups_view(r@) =~= ranked);
    assert(groups_view(r@).len() == r@.len());
    let mut i: usize = 0;
    while i < r.len()
        invariant
            r@.len() == ranked.len(),
            i <= r@.len(),
            forall|k: int|
                0 <= k < i ==> group_view(#[trigger] r@[k]) == each_capped(ranked, top as int)[k],
            forall|k: int| i <= k < r@.len() ==> group_view(#[trigger] r@[k]) == ranked[k],
        decreases r@.len() - i,
    {
        assert(group_view(r@[i as int]) == ranked[i as int]);
        cap(&mut r[i].1, top);
        i += 1;
    }
    assert(groups_view(r@) =~= each_capped(ranked, top as int));
    let mut others: Vec<usize> = Vec::new();
    let mut n: usize = 0;
    assert(ints(others@) =~= unlisted(ps, min as int, 0));
    while n < parties.len()
        invariant
            ps == texts(parties@),
            groups_view(groups@) == grouped(ps),
            n <= parties@.len(),
            parties@.len() == ratings@.len(),
            ints(others@) == unlisted(ps, min as int, n as int),
            forall|k: int| 0 <= k < others@.len() ==> #[trigger] others@[k] < ratings@.len(),
        decreases parties@.len() - n,
    {
        assert(ps[n as int] == parties@[n as int]@);
        if !is_listed_in(&groups, parties[n].as_str(), min, Ghost(ps)) {
            assert(ints(others@.push(n)) =~= ints(others@).push(n as int));
            others.push(n);
        }
        n += 1;
    }
    let mut rest = sort_by_rating(ratings, &others);
    cap(&mut rest, top);
    assert(ps.len() == parties@.len());
    let ghost was = r@;
    let ghost idxs = ints(rest@);
    assert(idxs.len() == rest@.len());
    if rest.len() > 0 {
        r.push(("Released Outside Parties".to_string(), rest));
    }
    assert(groups_view(r@) =~= groups_view(was) + if_any(outside_name(), idxs));
    r
}

/// Whether a party that occurs has a section.
fn is_listed_in(
    groups: &Vec<(String, Vec<usize>)>,
    party: &str,
    min: usize,
    parties: Ghost<Seq<Seq<char>>>,
) -> (r: bool)
    requires
        groups_view(groups@) == grouped(parties@),
        parties@.contains(party@),
    ensures
        r == is_listed(parties@, party@, min as int),
{
    let ghost names = first_seen(parties@);
    assert(groups_view(groups@).len() == groups@.len());
    let mut i: usize = 0;
    while i < groups.len()
        invariant
            groups_view(groups@) == grouped(parties@),
            groups@.len() == names.len(),
            names == first_seen(parties@),
            i <= groups@.len(),
            forall|k: int| 0 <= k < i ==> #[trigger] names[k] != party@,
        decreases groups@.len() - i,
    {
        proof {
            assert(groups_view(groups@)[i as int] == grouped(parties@)[i as int]);
            assert(group_view(groups@[i as int]) == (names[i as int], places(
                parties@,
                names[i as int],
            )));
            assert(ints(groups@[i as int].1@).len() == groups@[i as int].1@.len());
        }
        if same(groups[i].0.as_str(), party) {
            return !party.is_empty() && groups[i].1.len() >= min;
        }
        i += 1;
    }
    proof {
        lemma_first_seen(parties@);
        assert(names.contains(party@));
    }
    false
}

// ---- the list of the best -------------------------------------------------------------------

/// A release in the list of the best.
#[derive(Debug)]
pub struct Ranked {
    pub id: u32,
    pub name: String,
    pub group: String,
    /// In single precision, by its bits.
    pub rating: u32,
}

/// What an entry of the list says.
#[verifier::ext_equal]
pub struct Entry {
    pub id: u32,
    pub name: Seq<char>,
    pub group: Seq<char>,
    pub rating: u32,
}

impl View for Ranked {
    type V = Entry;

    open spec fn view(&self) -> Entry {
        Entry { id: self.id, name: self.name@, group: self.group@, rating: self.rating }
    }
}

pub open spec fn ranked_view(v: Seq<Ranked>) -> Seq<Entry> {
    v.map_values(|r: Ranked| r@)
}

/// The text of the first link in a part of a page behind a mark.
pub open spec fn link_text(part: Seq<char>, mark: Seq<char>) -> Option<Seq<char>> {
    match find_from(part, mark, 0) {
        Some(i) => match between_from(part, ">"@, "</a>"@, i) {
            Some(at) => Some(part.subrange(at.0, at.1)),
            None => None,
        },
        None => None,
    }
}

fn find_link(part: &str, mark: &str) -> (r: Option<String>)
    ensures
        opt_text(r) == link_text(part@, mark@),
{
    let v = chars_of(part);
    proof {
        lemma_find_from(part@, mark@, 0);
    }
    match find(&v, &chars_of(mark), 0) {
        Some(i) => match find_between(&v, &chars_of(">"), &chars_of("</a>"), i) {
            Some((a, b)) => Some(string_range(&v, a, b)),
            None => None,
        },
        None => None,
    }
}

/// The first of the texts between tags that is a rating.
pub open spec fn first_rating(pieces: Seq<Seq<char>>) -> u32
    decreases pieces.len(),
{
    if pieces.len() == 0 {
        0
    } else {
        let t = trimmed(pieces[0].take(char_from(pieces[0], '<', 0)));
        if char_from(t, '.', 0) < t.len() && is_rated(rating_of(t)) {
            rating_of(t)
        } else {
            first_rating(pieces.skip(1))
        }
    }
}

fn find_rating(pieces: &Vec<String>) -> (r: u32)
    ensures
        r == first_rating(texts(pieces@)),
{
    let ghost all = texts(pieces@);
    let mut i: usize = 0;
    assert(all.skip(0) =~= all);
    while i < pieces.len()
        invariant
            all == texts(pieces@),
            i <= pieces@.len(),
            first_rating(all) == first_rating(all.skip(i as int)),
        decreases pieces@.len() - i,
    {
        proof {
            assert(all.skip(i as int)[0] == pieces@[i as int]@);
            assert(all.skip(i as int).skip(1) =~= all.skip(i + 1));
        }
        let v = chars_of(pieces[i].as_str());
        proof {
            lemma_char_from(v@, '<', 0);
        }
        let end = find_char(&v, '<', 0);
        let front = string_range(&v, 0, end);
        assert(front@ =~= v@.take(end as int));
        let t = trim(front.as_str());
        let c = chars_of(t.as_str());
        if find_char(&c, '.', 0) < c.len() {
            let r = parse_rating(t.as_str());
            if 0 < r && r <= INFINITE {
                return r;
            }
        }
        i += 1;
    }
    assert(all.skip(i as int) =~= Seq::empty());
    0
}

/// What stands in the list from the number of a release up to the next: the number
/// up to the quote, the name in the release's link, the group in the first link to
/// one, and the first text between tags that is a rating.
pub open spec fn entry_of(part: Seq<char>) -> Entry {
    Entry {
        id: number_or_zero(part.take(char_from(part, '"', 0))),
        name: element_text(link_text(part, Seq::empty())),
        group: element_text(link_text(part, "/group/?id="@)),
        rating: first_rating(split_all(part, '>')),
    }
}

/// The entries of the list from `from` on: one for each link to a release that has a
/// number, a name and a rating.
pub open spec fn entries_from(s: Seq<char>, from: int) -> Seq<Entry>
    decreases s.len() - from,
{
    match find_from(s, "/release/?id="@, from) {
        Some(i) => if from <= i && i + 13 <= s.len() {
            let next = match find_from(s, "/release/?id="@, i + 13) {
                Some(j) => j,
                None => s.len() as int,
            };
            let e = entry_of(s.subrange(i + 13, next));
            let rest = entries_from(s, i + 13);
            if e.id > 0 && e.name.len() > 0 && e.rating > 0 {
                seq![e] + rest
            } else {
                rest
            }
        } else {
            Seq::empty()
        },
        None => Seq::empty(),
    }
}

fn read_entry(part: &str) -> (r: Ranked)
    ensures
        r@ == entry_of(part@),
{
    let v = chars_of(part);
    proof {
        reveal_strlit("");
        assert(""@ =~= Seq::empty());
        lemma_char_from(part@, '"', 0);
    }
    let end = find_char(&v, '"', 0);
    let number = string_range(&v, 0, end);
    assert(number@ =~= part@.take(end as int));
    Ranked {
        id: parse_or_zero(number.as_str()),
        name: read_text(&find_link(part, "")),
        group: read_text(&find_link(part, "/group/?id=")),
        rating: find_rating(&split(part, '>')),
    }
}

/// Reads the list of the best releases from its page.
pub fn parse_toplist(html: &str) -> (r: Vec<Ranked>)
    ensures
        ranked_view(r@) == entries_from(html@, 0),
{
    let v = chars_of(html);
    let mark = chars_of("/release/?id=");
    proof {
        reveal_strlit("/release/?id=");
    }
    let n: usize = v.len();
    let mut r: Vec<Ranked> = Vec::new();
    let mut from: usize = 0;
    assert(ranked_view(r@) =~= Seq::empty());
    loop
        invariant
            v@ == html@,
            n == v@.len(),
            mark@ == "/release/?id="@,
            mark@.len() == 13,
            from <= v@.len(),
            entries_from(html@, 0) =~= ranked_view(r@) + entries_from(html@, from as int),
        decreases v@.len() - from,
    {
        proof {
            lemma_find_from(v@, mark@, from as int);
        }
        match find(&v, &mark, from) {
            Some(i) => {
                let start: usize = i + 13;
                proof {
                    lemma_find_from(v@, mark@, start as int);
                }
                let next: usize = match find(&v, &mark, start) {
                    Some(j) => j,
                    None => n,
                };
                let e = read_entry(string_range(&v, start, next).as_str());
                if e.id > 0 && !e.name.as_str().is_empty() && e.rating > 0 {
                    let ghost was = r@;
                    assert(ranked_view(was.push(e)) =~= ranked_view(was).push(e@));
                    r.push(e);
                }
                from = start;
            },
            None => {
                assert(entries_from(html@, from as int) =~= Seq::empty());
                assert(entries_from(html@, 0) =~= ranked_view(r@));
                return r;
            },
        }
    }
}

/// A number with spaces before it, to a width of two.
pub open spec fn two_wide(n: int) -> Seq<char> {
    if n < 10 {
        " "@ + decimal(n as nat)
    } else {
        decimal(n as nat)
    }
}

/// A release in a plain listing: its place, rating and name, and who made it when.
pub open spec fn listing_line(
    place: int,
    rating: u32,
    name: Seq<char>,
    group: Seq<char>,
    year: u32,
) -> Seq<char> {
    "  "@ + two_wide(place) + ". "@ + rating_text(rating) + "  "@ + name + "  ("@ + group + " '"@
        + two_digits((year % 100) as int) + ")"@
}

pub fn listed_release(place: u64, rating: u32, name: &str, group: &str, year: u32) -> (r: String)
    ensures
        r@ == listing_line(place as int, rating, name@, group@, year),
{
    let n = decimal_text(place);
    let number = if place < 10 {
        append(" ", n.as_str())
    } else {
        n
    };
    let mut s = "  ".to_string();
    s.append(number.as_str());
    s.append(". ");
    s.append(write_rating(rating).as_str());
    s.append("  ");
    s.append(name);
    s.append("  (");
    s.append(group);
    s.append(" '");
    s.append(two_digit_text((year % 100) as u64).as_str());
    s.append(")");
    s
}

// ---- fields ---------------------------------------------------------------------------------

pub open spec fn clean_char(c: char) -> char {
    if c == '\t' || c == '\n' || c == '\r' {
        ' '
    } else {
        c
    }
}

/// A text that fits a field of a table: with spaces for tabs and line ends.
pub open spec fn cleaned(s: Seq<char>) -> Seq<char> {
    s.map_values(|c: char| clean_char(c))
}

/// Makes a text fit a field of a table.
pub fn clean(s: &str) -> (r: String)
    ensures
        r@ == cleaned(s@),
{
    let v = chars_of(s);
    let mut out: Vec<char> = Vec::new();
    let mut i: usize = 0;
    while i < v.len()
        invariant
            v@ == s@,
            i <= v@.len(),
            out@.len() == i,
            forall|k: int| 0 <= k < i ==> #[trigger] out@[k] == cleaned(s@)[k],
        decreases v@.len() - i,
    {
        let c: char = v[i];
        if c == '\t' || c == '\n' || c == '\r' {
            out.push(' ');
        } else {
            out.push(c);
        }
        i += 1;
    }
    assert(out@ =~= cleaned(s@));
    string_of(&out)
}

/// A cleaned text fits a field, and one that fits already stays as it is.
pub proof fn law_clean_texts_fit(s: Seq<char>)
    ensures
        fits_field(cleaned(s)),
        fits_field(s) && !s.contains('\r') ==> cleaned(s) == s,
{
    if fits_field(s) && !s.contains('\r') {
        assert forall|i: int| 0 <= i < s.len() implies #[trigger] cleaned(s)[i] == s[i] by {
            assert(s[i] != '\t');
            assert(s.contains(s[i]));
        }
        assert(cleaned(s) =~= s);
    }
}

// ---- laws ------------------------------------------------------------------------------------

/// Sorting by rating leaves no later release with a better one, and no release out.
pub proof fn law_best_releases_come_first(ratings: Seq<u32>, idxs: Seq<int>, i: int, j: int)
    requires
        0 <= i < j < idxs.len(),
    ensures
        by_rating(ratings, idxs).len() == idxs.len(),
        ratings[by_rating(ratings, idxs)[i]] >= ratings[by_rating(ratings, idxs)[j]],
{
    let keys = rating_keys(ratings, idxs);
    let le = by_pairs(keys);
    lemma_order_below(idxs.len(), keys);
    let p = stable_order(idxs.len(), le);
    assert(before(le, p[i], p[j]));
    assert(le(p[i], p[j]));
}

proof fn lemma_by_rating_keeps(ratings: Seq<u32>, idxs: Seq<int>, n: int)
    ensures
        by_rating(ratings, idxs).len() == idxs.len(),
        by_rating(ratings, idxs).contains(n) <==> idxs.contains(n),
{
    let keys = rating_keys(ratings, idxs);
    lemma_order_below(idxs.len(), keys);
    let p = stable_order(idxs.len(), by_pairs(keys));
    let s = by_rating(ratings, idxs);
    if idxs.contains(n) {
        let k = choose|k: int| 0 <= k < idxs.len() && idxs[k] == n;
        assert(p.contains(k));
        let i = choose|i: int| 0 <= i < p.len() && p[i] == k;
        assert(s[i] == n);
    }
    if s.contains(n) {
        let i = choose|i: int| 0 <= i < s.len() && s[i] == n;
        assert(0 <= p[i] < idxs.len());
        assert(idxs[p[i]] == n);
    }
}

proof fn lemma_listed(
    parties: Seq<Seq<char>>,
    ratings: Seq<u32>,
    min: int,
    names: Seq<Seq<char>>,
    party: Seq<char>,
)
    ensures
        forall|s: int|
            0 <= s < listed(parties, ratings, min, names).len() ==> {
                let section = #[trigger] listed(parties, ratings, min, names)[s];
                is_listed(parties, section.0, min) && section.1 == by_rating(
                    ratings,
                    places(parties, section.0),
                )
            },
        names.contains(party) && is_listed(parties, party, min) ==> exists|s: int|
            0 <= s < listed(parties, ratings, min, names).len() && (#[trigger] listed(
                parties,
                ratings,
                min,
                names,
            )[s]).0 == party,
    decreases names.len(),
{
    if names.len() > 0 {
        let init = names.drop_last();
        let was = listed(parties, ratings, min, init);
        let now = listed(parties, ratings, min, names);
        lemma_listed(parties, ratings, min, init, party);
        assert forall|s: int| 0 <= s < now.len() implies {
            let section = #[trigger] now[s];
            is_listed(parties, section.0, min) && section.1 == by_rating(
                ratings,
                places(parties, section.0),
            )
        } by {
            if s < was.len() {
                assert(now[s] == was[s]);
            }
        }
        if names.contains(party) && is_listed(parties, party, min) {
            if names.last() == party {
                assert(now[now.len() - 1].0 == party);
            } else {
                let k = choose|k: int| 0 <= k < names.len() && names[k] == party;
                assert(init[k] == party);
                let s = choose|s: int| 0 <= s < was.len() && (#[trigger] was[s]).0 == party;
                assert(now[s] == was[s]);
            }
        }
    }
}

proof fn lemma_ranked_parties(
    parties: Seq<Seq<char>>,
    ratings: Seq<u32>,
    min: int,
    best_first: bool,
)
    ensures
        ({
            let ss = listed(parties, ratings, min, first_seen(parties));
            let keys = section_keys(ratings, ss, best_first);
            is_order(ss.len(), by_counts(keys), stable_order(ss.len(), by_counts(keys)))
        }),
{
    let ss = listed(parties, ratings, min, first_seen(parties));
    let keys = section_keys(ratings, ss, best_first);
    law_order_exists(ss.len(), by_counts(keys));
}

/// A party has a section of its own only with enough releases, no section holds more
/// than its share, and in each the best come first.
pub proof fn law_sections_hold_the_best(
    parties: Seq<Seq<char>>,
    ratings: Seq<u32>,
    min: int,
    top: int,
    best_first: bool,
    s: int,
    i: int,
    j: int,
)
    requires
        0 <= top,
        0 <= s < party_sections(parties, ratings, min, top, best_first).len(),
        0 <= i < j < party_sections(parties, ratings, min, top, best_first)[s].1.len(),
    ensures
        ({
            let all = party_sections(parties, ratings, min, top, best_first);
            &&& all[s].1.len() <= top
            &&& ratings[all[s].1[i]] >= ratings[all[s].1[j]]
            &&& is_listed(parties, all[s].0, min) || (s == all.len() - 1 && all[s].0
                == outside_name())
        }),
{
    let ranked = ranked_parties(parties, ratings, min, best_first);
    if s < ranked.len() {
        lemma_ranked_parties(parties, ratings, min, best_first);
        let ss = listed(parties, ratings, min, first_seen(parties));
        let p = stable_order(ss.len(), by_counts(section_keys(ratings, ss, best_first)));
        lemma_listed(parties, ratings, min, first_seen(parties), Seq::empty());
        assert(0 <= p[s] < ss.len());
        assert(ranked[s] == ss[p[s]]);
        let idxs = places(parties, ranked[s].0);
        lemma_by_rating_keeps(ratings, idxs, 0);
        law_best_releases_come_first(ratings, idxs, i, j);
    } else {
        let idxs = unlisted(parties, min, parties.len() as int);
        lemma_by_rating_keeps(ratings, idxs, 0);
        law_best_releases_come_first(ratings, idxs, i, j);
    }
}

/// The sections of the parties stand in their order: a later one has neither more
/// releases nor, with as many, a better best one; or the other way round where the
/// best release decides.
pub proof fn law_greatest_party_leads(
    parties: Seq<Seq<char>>,
    ratings: Seq<u32>,
    min: int,
    best_first: bool,
    i: int,
    j: int,
)
    requires
        0 <= i < j < ranked_parties(parties, ratings, min, best_first).len(),
    ensures
        ({
            let ranked = ranked_parties(parties, ratings, min, best_first);
            let a = section_key(ratings, ranked[i], best_first);
            let b = section_key(ratings, ranked[j], best_first);
            a.0 > b.0 || (a.0 == b.0 && a.1 >= b.1)
        }),
{
    lemma_ranked_parties(parties, ratings, min, best_first);
    let ss = listed(parties, ratings, min, first_seen(parties));
    let le = by_counts(section_keys(ratings, ss, best_first));
    let p = stable_order(ss.len(), le);
    assert(before(le, p[i], p[j]));
    assert(le(p[i], p[j]));
}

proof fn lemma_unlisted(parties: Seq<Seq<char>>, min: int, n: int, i: int)
    requires
        0 <= i < n <= parties.len(),
    ensures
        unlisted(parties, min, n).contains(i) <==> !is_listed(parties, parties[i], min),
    decreases n,
{
    let was = unlisted(parties, min, n - 1);
    let now = unlisted(parties, min, n);
    lemma_unlisted_below(parties, min, n - 1);
    if i < n - 1 {
        lemma_unlisted(parties, min, n - 1, i);
        if was.contains(i) {
            let k = choose|k: int| 0 <= k < was.len() && was[k] == i;
            assert(now[k] == i);
        }
        if now.contains(i) {
            let k = choose|k: int| 0 <= k < now.len() && now[k] == i;
            if k == was.len() {
            } else {
                assert(was[k] == i);
            }
        }
    } else if is_listed(parties, parties[i], min) {
        if now.contains(i) {
            let k = choose|k: int| 0 <= k < now.len() && now[k] == i;
            assert(was[k] == i);
        }
    } else {
        assert(now[now.len() - 1] == i);
    }
}

proof fn lemma_unlisted_below(parties: Seq<Seq<char>>, min: int, n: int)
    requires
        n <= parties.len(),
    ensures
        forall|k: int|
            0 <= k < unlisted(parties, min, n).len() ==> 0 <= #[trigger] unlisted(
                parties,
                min,
                n,
            )[k] < n,
    decreases n,
{
    if n > 0 {
        let was = unlisted(parties, min, n - 1);
        let now = unlisted(parties, min, n);
        lemma_unlisted_below(parties, min, n - 1);
        assert forall|k: int| 0 <= k < now.len() implies 0 <= #[trigger] now[k] < n by {
            if k < was.len() {
                assert(now[k] == was[k]);
            }
        }
    }
}

/// The section that a release belongs to.
pub open spec fn section_name(parties: Seq<Seq<char>>, min: int, n: int) -> Seq<char> {
    if is_listed(parties, parties[n], min) {
        parties[n]
    } else {
        outside_name()
    }
}

/// Section `s` has this name and holds the release.
pub open spec fn holds_release(all: Seq<Section>, s: int, n: int, name: Seq<char>) -> bool {
    0 <= s < all.len() && all[s].0 == name && all[s].1.contains(n)
}

/// No release is lost where the sections have room: it is in the section of its
/// party, or, where that has none, in the last one.
pub proof fn law_every_release_has_its_section(
    parties: Seq<Seq<char>>,
    ratings: Seq<u32>,
    min: int,
    top: int,
    best_first: bool,
    n: int,
)
    requires
        0 <= n < parties.len(),
        is_listed(parties, parties[n], min) ==> places(parties, parties[n]).len() <= top,
        !is_listed(parties, parties[n], min) ==> unlisted(parties, min, parties.len() as int).len()
            <= top,
    ensures
        exists|s: int| #[trigger]
            holds_release(
                party_sections(parties, ratings, min, top, best_first),
                s,
                n,
                section_name(parties, min, n),
            ),
{
    let all = party_sections(parties, ratings, min, top, best_first);
    let ranked = ranked_parties(parties, ratings, min, best_first);
    if is_listed(parties, parties[n], min) {
        let party = parties[n];
        let ss = listed(parties, ratings, min, first_seen(parties));
        lemma_first_seen(parties);
        assert(parties.contains(party));
        assert(first_seen(parties).contains(party));
        lemma_listed(parties, ratings, min, first_seen(parties), party);
        let t = choose|t: int| 0 <= t < ss.len() && (#[trigger] ss[t]).0 == party;
        lemma_ranked_parties(parties, ratings, min, best_first);
        let p = stable_order(ss.len(), by_counts(section_keys(ratings, ss, best_first)));
        assert(p.contains(t));
        let s = choose|s: int| 0 <= s < p.len() && p[s] == t;
        assert(ranked[s] == ss[t]);
        lemma_places(parties, party);
        assert(places(parties, party).contains(n));
        lemma_by_rating_keeps(ratings, places(parties, party), n);
        assert(holds_release(all, s, n, section_name(parties, min, n)));
    } else {
        let idxs = unlisted(parties, min, parties.len() as int);
        lemma_unlisted(parties, min, parties.len() as int, n);
        lemma_by_rating_keeps(ratings, idxs, n);
        assert(holds_release(all, ranked.len() as int, n, section_name(parties, min, n)));
    }
}

/// The sections hold releases of the list and nothing else.
pub proof fn lemma_sections_below(
    parties: Seq<Seq<char>>,
    ratings: Seq<u32>,
    min: int,
    top: int,
    best_first: bool,
    s: int,
    k: int,
)
    requires
        0 <= top,
        0 <= s < party_sections(parties, ratings, min, top, best_first).len(),
        0 <= k < party_sections(parties, ratings, min, top, best_first)[s].1.len(),
    ensures
        0 <= party_sections(parties, ratings, min, top, best_first)[s].1[k] < parties.len(),
{
    let all = party_sections(parties, ratings, min, top, best_first);
    let ranked = ranked_parties(parties, ratings, min, best_first);
    let n = all[s].1[k];
    if s < ranked.len() {
        lemma_ranked_parties(parties, ratings, min, best_first);
        let ss = listed(parties, ratings, min, first_seen(parties));
        let p = stable_order(ss.len(), by_counts(section_keys(ratings, ss, best_first)));
        lemma_listed(parties, ratings, min, first_seen(parties), Seq::empty());
        assert(0 <= p[s] < ss.len());
        assert(ranked[s] == ss[p[s]]);
        let idxs = places(parties, ranked[s].0);
        lemma_by_rating_keeps(ratings, idxs, n);
        lemma_places(parties, ranked[s].0);
        assert(by_rating(ratings, idxs)[k] == n);
        assert(idxs.contains(n));
    } else {
        let idxs = unlisted(parties, min, parties.len() as int);
        lemma_by_rating_keeps(ratings, idxs, n);
        lemma_unlisted_below(parties, min, parties.len() as int);
        assert(by_rating(ratings, idxs)[k] == n);
        assert(idxs.contains(n));
    }
}

// ---- pages and parties -------------------------------------------------------------------------------------------------

/// The text between two marks: in front of it stands the first opening mark, behind it the
/// closing mark, and no closing mark is in it.
pub proof fn law_between_marks(s: Seq<char>, open: Seq<char>, close: Seq<char>) -> (at: (int, int))
    ensures
        match between_of(s, open, close) {
            Some(t) => {
                &&& open.len() <= at.0 <= at.1 <= s.len()
                &&& t == s.subrange(at.0, at.1)
                &&& s.subrange(at.0 - open.len(), at.0) == open
                &&& at.1 + close.len() <= s.len() && s.subrange(at.1, at.1 + close.len()) == close
                &&& forall|k: int|
                    0 <= k < at.0 - open.len() ==> #[trigger] s.subrange(k, k + open.len()) != open
                &&& forall|k: int|
                    at.0 <= k < at.1 ==> #[trigger] s.subrange(k, k + close.len()) != close
            },
            None => !crate::text::has_part(s, open) || {
                &&& open.len() <= at.0 <= s.len()
                &&& s.subrange(at.0 - open.len(), at.0) == open
                &&& forall|k: int|
                    at.0 <= k && k + close.len() <= s.len() ==> #[trigger] s.subrange(
                        k,
                        k + close.len(),
                    ) != close
            },
        },
{
    crate::text::law_parts_are_found(s, open, 0);
    lemma_find_from(s, open, 0);
    match find_from(s, open, 0) {
        Some(i) => {
            crate::text::law_parts_are_found(s, close, i + open.len());
            match find_from(s, close, i + open.len()) {
                Some(j) => (i + open.len(), j),
                None => (i + open.len(), 0),
            }
        },
        None => (0, 0),
    }
}

/// A number is read where a text is one that fits, and is zero otherwise.
pub proof fn law_numbers_or_zero(n: nat, s: Seq<char>)
    ensures
        n <= u32::MAX ==> number_or_zero(crate::text::decimal(n)) == n,
        n > u32::MAX ==> number_or_zero(crate::text::decimal(n)) == 0,
        number_of(s) is None ==> number_or_zero(s) == 0,
{
    crate::text::law_numbers_come_back(n as int);
    crate::text::lemma_decimal(n);
    assert(crate::text::is_digit(crate::text::decimal(n)[0]));
}

/// The edition of a party loses its year: four digits behind a space. A name that does not
/// end so stays.
pub proof fn law_editions_lose_their_year(name: Seq<char>, year: Seq<char>)
    requires
        name.len() > 0,
        trimmed(name) == name,
        year.len() == 4,
        all_digits(year),
    ensures
        series_of(name + seq![' '] + year) == name,
        series_of(name + year) == name + year,
{
    let at = crate::text::law_trimming(name);
    assert(at.0 == 0 && at.1 == name.len());
    lemma_stays_trimmed(name, seq![' '] + year);
    lemma_stays_trimmed(name, year);
    let t = name + (seq![' '] + year);
    assert(name + seq![' '] + year =~= t);
    let n = t.len() as int;
    assert(t[n - 5] == ' ');
    assert(t.skip(n - 4) =~= year);
    assert(t.take(n - 5) =~= name);
    let u = name + year;
    assert(u.skip(u.len() - 4) =~= year);
    assert(u[u.len() - 5] == name.last());
}

proof fn lemma_stays_trimmed(name: Seq<char>, tail: Seq<char>)
    requires
        name.len() > 0,
        trimmed(name) == name,
        tail.len() > 0,
        !is_space(tail.last()),
    ensures
        trimmed(name + tail) == name + tail,
{
    let at = crate::text::law_trimming(name);
    assert(at.0 == 0 && at.1 == name.len());
    let s = name + tail;
    let b = crate::text::law_trimming(s);
    assert(s[0] == name[0]);
    assert(s[s.len() - 1] == tail.last());
    if b.0 > 0 {
        assert(is_space(s[0]));
    }
    if b.1 < s.len() {
        assert(is_space(s[s.len() - 1]));
    }
    assert(s.subrange(0, s.len() as int) =~= s);
}

/// A party has a section of its own when enough releases name it.
pub proof fn law_parties_with_enough_releases(parties: Seq<Seq<char>>, party: Seq<char>, min: int)
    ensures
        is_listed(parties, party, min) == (party.len() > 0 && parties.filter(
            |p: Seq<char>| p == party,
        ).len() >= min),
{
    lemma_places_filter(parties, party);
}

proof fn lemma_places_filter(parties: Seq<Seq<char>>, party: Seq<char>)
    ensures
        places(parties, party).len() == parties.filter(|p: Seq<char>| p == party).len(),
    decreases parties.len(),
{
    reveal(Seq::filter);
    if parties.len() > 0 {
        lemma_places_filter(parties.drop_last(), party);
    }
}

/// The section with more releases comes before one with fewer, and of equals the one whose
/// best release is better; or, where the best decide, the one with the better best release
/// comes first, and of equals the greater.
pub proof fn law_the_order_of_parties(
    parties: Seq<Seq<char>>,
    ratings: Seq<u32>,
    min: int,
    i: int,
    j: int,
)
    requires
        parties.len() == ratings.len(),
        parties.len() <= u64::MAX,
    ensures
        ({
            let by_size = ranked_parties(parties, ratings, min, false);
            let by_best = ranked_parties(parties, ratings, min, true);
            let best = |s: Section| ratings[s.1[0]];
            &&& 0 <= i < j < by_size.len() && by_size[i].1.len() > 0 && by_size[j].1.len() > 0
                && by_size[i].1.len() <= u64::MAX && by_size[j].1.len() <= u64::MAX
                ==> by_size[i].1.len() > by_size[j].1.len() || (by_size[i].1.len()
                == by_size[j].1.len() && best(by_size[i]) >= best(by_size[j]))
            &&& 0 <= i < j < by_best.len() && by_best[i].1.len() > 0 && by_best[j].1.len() > 0
                && by_best[i].1.len() <= u64::MAX && by_best[j].1.len() <= u64::MAX ==> best(
                by_best[i],
            ) > best(by_best[j]) || (best(by_best[i]) == best(by_best[j]) && by_best[i].1.len()
                >= by_best[j].1.len())
        }),
{
    if 0 <= i < j < ranked_parties(parties, ratings, min, false).len() {
        law_greatest_party_leads(parties, ratings, min, false, i, j);
    }
    if 0 <= i < j < ranked_parties(parties, ratings, min, true).len() {
        law_greatest_party_leads(parties, ratings, min, true, i, j);
    }
}

/// What belongs to no party's section is in the last one, which is called so.
pub proof fn law_the_rest_is_outside(
    parties: Seq<Seq<char>>,
    ratings: Seq<u32>,
    min: int,
    top: int,
    best_first: bool,
)
    ensures
        ({
            let all = party_sections(parties, ratings, min, top, best_first);
            let own = ranked_parties(parties, ratings, min, best_first);
            let rest = capped(by_rating(ratings, unlisted(parties, min, parties.len() as int)), top);
            &&& all.len() == own.len() + (if rest.len() > 0 {
                1int
            } else {
                0
            })
            &&& rest.len() > 0 ==> all.last() == ("Released Outside Parties"@, rest)
            &&& forall|s: int| 0 <= s < own.len() ==> (#[trigger] all[s]).0 == own[s].0 && all[s].1
                == if own[s].1.len() <= top {
                own[s].1
            } else {
                own[s].1.take(top)
            }
        }),
{
}

/// An entry of the list has a number, a name and a rating above zero.
pub proof fn law_entries_are_complete(s: Seq<char>, from: int, k: int)
    requires
        0 <= k < entries_from(s, from).len(),
    ensures
        entries_from(s, from)[k].id > 0,
        entries_from(s, from)[k].name.len() > 0,
        entries_from(s, from)[k].rating > 0,
    decreases s.len() - from,
{
    if let Some(i) = find_from(s, "/release/?id="@, from) {
        if from <= i && i + 13 <= s.len() {
            let next = match find_from(s, "/release/?id="@, i + 13) {
                Some(j) => j,
                None => s.len() as int,
            };
            let e = entry_of(s.subrange(i + 13, next));
            let rest = entries_from(s, i + 13);
            if e.id > 0 && e.name.len() > 0 && e.rating > 0 {
                if k > 0 {
                    assert(entries_from(s, from)[k] == rest[k - 1]);
                    law_entries_are_complete(s, i + 13, k - 1);
                }
            } else {
                law_entries_are_complete(s, i + 13, k);
            }
        }
    }
}

/// A rating in the list is a number with a point above zero; the first text that is one
/// counts.
pub proof fn law_the_first_rating_counts(pieces: Seq<Seq<char>>, t: Seq<char>)
    ensures
        ({
            let r = rating_of(trimmed(t.take(char_from(t, '<', 0))));
            let text = trimmed(t.take(char_from(t, '<', 0)));
            first_rating(seq![t] + pieces) == if text.contains('.') && 0 < r <= 0x7f80_0000 {
                r
            } else {
                first_rating(pieces)
            }
        }),
{
    let all = seq![t] + pieces;
    assert(all.skip(1) =~= pieces);
    let text = trimmed(t.take(char_from(t, '<', 0)));
    lemma_char_from(text, '.', 0);
    if text.contains('.') {
        let i = text.index_of('.');
        assert(text[i] == '.');
    }
}

/// What the list says of a release: its number up to the quote, the text of its own link, the
/// text of the first link to a group, and the first rating.
pub proof fn law_entries_of_the_list(part: Seq<char>)
    ensures
        ({
            let e = entry_of(part);
            let own = between_of(part, ">"@, "</a>"@);
            let group = find_from(part, "/group/?id="@, 0);
            &&& own is Some ==> e.name == unescaped(trimmed(own->0))
            &&& own is None ==> e.name.len() == 0
            &&& group is None ==> e.group.len() == 0
            &&& group matches Some(i) ==> (match between_from(part, ">"@, "</a>"@, i) {
                Some(at) => e.group == unescaped(trimmed(part.subrange(at.0, at.1))),
                None => e.group.len() == 0,
            })
            &&& e.rating == first_rating(split_all(part, '>'))
            &&& forall|k: int|
                0 <= k < part.len() && #[trigger] part[k] == '"' && (forall|m: int|
                    0 <= m < k ==> #[trigger] part[m] != '"') ==> e.id == number_or_zero(part.take(k))
        }),
{
    assert(part.subrange(0, 0) =~= Seq::empty());
    assert(find_from(part, Seq::empty(), 0) == Some(0int));
    lemma_char_from(part, '"', 0);
    assert forall|k: int|
        0 <= k < part.len() && #[trigger] part[k] == '"' && (forall|m: int|
            0 <= m < k ==> #[trigger] part[m] != '"') implies entry_of(part).id == number_or_zero(
        part.take(k),
    ) by {
        let c = char_from(part, '"', 0);
        if c < k {
            assert(part[c] != '"');
        }
    }
}

/// The addresses of the database: of an event, and of a release to a depth.
pub proof fn law_addresses_of_the_database(id: u32, depth: u32)
    ensures
        ({
            let e = event_address(id);
            let r = release_address(id, depth);
            let site = "https://csdb.dk/webservice/?type="@;
            &&& e == site + "event"@ + "&id="@ + decimal(id as nat) + "&depth="@ + "1"@
            &&& r == site + "release"@ + "&id="@ + decimal(id as nat) + "&depth="@ + decimal(depth as nat)
        }),
{
    reveal_strlit("https://csdb.dk/webservice/?type=");
    reveal_strlit("event");
    reveal_strlit("release");
    reveal_strlit("&id=");
    reveal_strlit("&depth=");
    reveal_strlit("1");
    reveal_strlit("&depth=1");
    reveal_strlit("https://csdb.dk/webservice/?type=event&id=");
    reveal_strlit("https://csdb.dk/webservice/?type=release&id=");
    let site = "https://csdb.dk/webservice/?type="@;
    assert(event_address(id) =~= site + "event"@ + "&id="@ + decimal(id as nat) + "&depth="@ + "1"@);
    assert(release_address(id, depth) =~= site + "release"@ + "&id="@ + decimal(id as nat)
        + "&depth="@ + decimal(depth as nat));
}

/// The links of a release: the text of each element, one behind the other.
pub proof fn law_links_of_a_release(s: Seq<char>, from: int)
    requires
        0 <= from,
    ensures
        find_from(s, "<Link>"@, from) is None ==> links_from(s, from).len() == 0,
        links_from(s, from).len() > 0 ==> (find_from(s, "<Link>"@, from) matches Some(i) && (find_from(
            s,
            "</Link>"@,
            i + "<Link>"@.len(),
        ) matches Some(j) && links_from(s, from)[0] == unescaped(
            trimmed(s.subrange(i + "<Link>"@.len(), j)),
        ))),
{
}

} // verus!
