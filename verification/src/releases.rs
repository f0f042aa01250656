//! Releases on disk: what a title says about the disk it names, and which of the
//! releases of a game is the best one.

use crate::grouping::{
    first_seen, group, group_view, grouped, groups_view, lemma_first_seen, lemma_places, places,
};
use crate::order::{
    before, by_pairs, ints, is_order, law_order_exists, lemma_pairs_compare, order_by_pairs,
    stable_order,
};
use crate::pattern::{
    find_pattern, first_group, founds, matches_of, splice_with, spliced_with, Found, Pattern,
};
use crate::sections::{arranged, lemma_order_below};
use crate::text::{
    chars_of, contains, count, count_of, has_part, lowered, number_of, parse_i64, string_of,
    texts, to_lowercase, trim, trimmed,
};
use vstd::prelude::*;

verus! {

/// Where to get a disk: the source's name, and what it knows the disk by.
#[derive(Clone, Debug)]
pub struct Handle {
    pub src: &'static str,
    pub reff: String,
}

/// A disk that can be had, and its title.
pub type Item = (Handle, String);

/// What an item says.
#[verifier::ext_equal]
pub struct Offer {
    pub src: Seq<char>,
    pub reff: Seq<char>,
    pub title: Seq<char>,
}

pub open spec fn offer(it: Item) -> Offer {
    Offer { src: it.0.src@, reff: it.0.reff@, title: it.1@ }
}

pub open spec fn offers(v: Seq<Item>) -> Seq<Offer> {
    v.map_values(|it: Item| offer(it))
}

pub fn copy_item(it: &Item) -> (c: Item)
    ensures
        offer(c) == offer(*it),
{
    (Handle { src: it.0.src, reff: it.0.reff.clone() }, it.1.clone())
}

// ---- what a title says ------------------------------------------------------------------

/// The number in a text that fits an `i32`, or `default`.
pub open spec fn number_or(s: Option<Seq<char>>, default: i32) -> i32 {
    match s {
        Some(t) => match number_of(t) {
            Some(n) => if i32::MIN <= n <= i32::MAX {
                n as i32
            } else {
                default
            },
            None => default,
        },
        None => default,
    }
}

/// The number of the disk that a title names; one when it names none.
pub open spec fn disk_number(title: Seq<char>) -> i32 {
    number_or(first_group(matches_of(Pattern::DiskNumber, lowered(title))), 1)
}

/// The side that a figure or a letter stands for.
pub open spec fn side_value(s: Option<Seq<char>>) -> i32 {
    match s {
        Some(t) => if t.len() == 0 {
            0
        } else if '0' <= t[0] <= '9' {
            (t[0] as u32 - '0' as u32) as i32
        } else {
            (t[0] as u32 - 'a' as u32 + 1) as i32
        },
        None => 0,
    }
}

/// The side that a title names, from one on; zero when it names none.
pub open spec fn side_number(title: Seq<char>) -> i32 {
    side_value(first_group(matches_of(Pattern::SideNumber, lowered(title))))
}

/// The first group of the first match, as a text.
pub fn first_group_text(found: &Vec<Found>) -> (r: Option<String>)
    ensures
        match r {
            Some(g) => first_group(founds(found@)) == Some(g@),
            None => first_group(founds(found@)) is None,
        },
{
    if found.len() > 0 {
        assert(founds(found@)[0] == found@[0]@);
        match &found[0].group {
            Some(g) => Some(g.clone()),
            None => None,
        }
    } else {
        None
    }
}

/// The number that the first group of the first match is, or `default`.
pub fn group_number(found: &Vec<Found>, default: i32) -> (n: i32)
    ensures
        n == number_or(first_group(founds(found@)), default),
{
    match first_group_text(found) {
        Some(g) => match parse_i64(g.as_str()) {
            Some(n) => if i32::MIN as i64 <= n && n <= i32::MAX as i64 {
                n as i32
            } else {
                default
            },
            None => default,
        },
        None => default,
    }
}

/// The side that the first group of the first match stands for.
pub fn group_side(found: &Vec<Found>) -> (n: i32)
    ensures
        n == side_value(first_group(founds(found@))),
{
    match first_group_text(found) {
        Some(g) => {
            let v = chars_of(g.as_str());
            if v.len() == 0 {
                0
            } else {
                let c: char = v[0];
                let u: u32 = c as u32;
                proof {
                    vstd::utf8::char_is_scalar(c);
                }
                if '0' <= c && c <= '9' {
                    (u - '0' as u32) as i32
                } else {
                    u as i32 - 'a' as i32 + 1
                }
            }
        },
        None => 0,
    }
}

/// The number of the disk that a title names.
pub fn disk_no(t: &str) -> (n: i32)
    ensures
        n == disk_number(t@),
{
    group_number(&find_pattern(Pattern::DiskNumber, to_lowercase(t).as_str()), 1)
}

/// The side that a title names.
pub fn side_no(t: &str) -> (n: i32)
    ensures
        n == side_number(t@),
{
    group_side(&find_pattern(Pattern::SideNumber, to_lowercase(t).as_str()))
}

/// A character, with brackets made spaces.
pub open spec fn bracket_to_space(c: char) -> char {
    if c == '(' || c == ')' || c == '[' || c == ']' {
        ' '
    } else {
        c
    }
}

pub open spec fn unbracketed(s: Seq<char>) -> Seq<char> {
    s.map_values(|c: char| bracket_to_space(c))
}

/// A text with each run of white space made one space.
pub open spec fn collapsed(s: Seq<char>) -> Seq<char> {
    spliced_with(s, matches_of(Pattern::Spaces, s), " "@)
}

/// What is the same for all disks of a release: the title without disk numbers,
/// sides and roles.
pub open spec fn release_key_of(title: Seq<char>) -> Seq<char> {
    let a = lowered(title);
    let b = spliced_with(a, matches_of(Pattern::DiskOf, a), ""@);
    let c = spliced_with(b, matches_of(Pattern::AnySide, b), ""@);
    let d = spliced_with(c, matches_of(Pattern::Role, c), ""@);
    trimmed(collapsed(trimmed(unbracketed(d))))
}

/// Makes the brackets of a text spaces.
pub fn brackets_to_spaces(s: &str) -> (r: String)
    ensures
        r@ == unbracketed(s@),
{
    let v = chars_of(s);
    let mut out: Vec<char> = Vec::new();
    let mut i: usize = 0;
    while i < v.len()
        invariant
            v@ == s@,
            i <= v@.len(),
            out@.len() == i,
            forall|k: int| 0 <= k < i ==> #[trigger] out@[k] == unbracketed(s@)[k],
        decreases v@.len() - i,
    {
        let c: char = v[i];
        out.push(
            if c == '(' || c == ')' || c == '[' || c == ']' {
                ' '
            } else {
                c
            },
        );
        i += 1;
    }
    assert(out@ =~= unbracketed(s@));
    string_of(&out)
}

/// Makes each run of white space one space.
pub fn collapse_spaces(s: &str) -> (r: String)
    ensures
        r@ == collapsed(s@),
{
    splice_with(s, &find_pattern(Pattern::Spaces, s), " ")
}

/// The key of the release that a title belongs to.
pub fn release_key(t: &str) -> (r: String)
    ensures
        r@ == release_key_of(t@),
{
    let a = to_lowercase(t);
    let b = splice_with(a.as_str(), &find_pattern(Pattern::DiskOf, a.as_str()), "");
    let c = splice_with(b.as_str(), &find_pattern(Pattern::AnySide, b.as_str()), "");
    let d = splice_with(c.as_str(), &find_pattern(Pattern::Role, c.as_str()), "");
    let e = trim(brackets_to_spaces(d.as_str()).as_str());
    trim(collapse_spaces(e.as_str()).as_str())
}

/// What a title says of a disk.
#[verifier::ext_equal]
pub struct Mark {
    pub release: Seq<char>,
    pub disk: i32,
    pub side: i32,
    /// The title speaks of booting.
    pub boots: bool,
    /// The number of opening brackets: of flags.
    pub brackets: nat,
}

/// What a title says of a disk.
pub struct Tag {
    pub release: String,
    pub disk: i32,
    pub side: i32,
    pub boots: bool,
    pub brackets: usize,
}

impl View for Tag {
    type V = Mark;

    open spec fn view(&self) -> Mark {
        Mark {
            release: self.release@,
            disk: self.disk,
            side: self.side,
            boots: self.boots,
            brackets: self.brackets as nat,
        }
    }
}

pub open spec fn marks(v: Seq<Tag>) -> Seq<Mark> {
    v.map_values(|t: Tag| t@)
}

pub open spec fn mark_of(title: Seq<char>) -> Mark {
    Mark {
        release: release_key_of(title),
        disk: disk_number(title),
        side: side_number(title),
        boots: has_part(lowered(title), "boot"@),
        brackets: count_of(title, '['),
    }
}

/// Reads what a title says of a disk.
pub fn tag_of(title: &str) -> (t: Tag)
    ensures
        t@ == mark_of(title@),
{
    Tag {
        release: release_key(title),
        disk: disk_no(title),
        side: side_no(title),
        boots: contains(to_lowercase(title).as_str(), "boot"),
        brackets: count(title, '['),
    }
}

// ---- how good a release is ------------------------------------------------------------------

/// A disk that a game can be started from.
pub open spec fn bootable(m: Mark) -> bool {
    m.boots || (m.disk == 1 && (m.side == 0 || m.side == 1))
}

/// One of these disks can start the game.
pub open spec fn any_bootable(ms: Seq<Mark>) -> bool {
    exists|i: int| 0 <= i < ms.len() && bootable(#[trigger] ms[i])
}

/// How many different numbers there are.
pub open spec fn different(s: Seq<i32>) -> nat
    decreases s.len(),
{
    if s.len() == 0 {
        0
    } else if s.drop_last().contains(s.last()) {
        different(s.drop_last())
    } else {
        different(s.drop_last()) + 1
    }
}

pub open spec fn disks(ms: Seq<Mark>) -> Seq<i32> {
    ms.map_values(|m: Mark| m.disk)
}

/// All the flags of these disks.
pub open spec fn flags(ms: Seq<Mark>) -> nat
    decreases ms.len(),
{
    if ms.len() == 0 {
        0
    } else {
        flags(ms.drop_last()) + ms.last().brackets
    }
}

/// What speaks for a release: that it starts, the number of its disks, few flags,
/// a short key.
pub struct Merit {
    pub boots: bool,
    pub disks: nat,
    pub flags: nat,
    pub key: nat,
}

/// `b` is better than `a`: the first difference decides.
pub open spec fn better(a: Merit, b: Merit) -> bool {
    if a.boots != b.boots {
        b.boots
    } else if a.disks != b.disks {
        a.disks < b.disks
    } else if a.flags != b.flags {
        a.flags > b.flags
    } else {
        a.key > b.key
    }
}

pub open spec fn merit(ms: Seq<Mark>, key: Seq<char>) -> Merit {
    Merit { boots: any_bootable(ms), disks: different(disks(ms)), flags: flags(ms), key: key.len() }
}

/// The best of the first `n` merits: of equally good ones the first.
pub open spec fn best_upto(merits: Seq<Merit>, n: int) -> int
    decreases n,
{
    if n <= 1 {
        0
    } else {
        let b = best_upto(merits, n - 1);
        if better(merits[b], merits[n - 1]) {
            n - 1
        } else {
            b
        }
    }
}

pub open spec fn releases(ms: Seq<Mark>) -> Seq<Seq<char>> {
    ms.map_values(|m: Mark| m.release)
}

/// The merits of the releases among these disks, in the order in which they are
/// first seen.
pub open spec fn merits(ms: Seq<Mark>) -> Seq<Merit> {
    grouped(releases(ms)).map_values(
        |g: (Seq<char>, Seq<int>)| merit(arranged(ms, g.1), g.0),
    )
}

/// The disks of the best release, in the order in which they are loaded.
pub open spec fn best_disks(ms: Seq<Mark>) -> Seq<int> {
    if ms.len() == 0 {
        Seq::empty()
    } else {
        let idxs = grouped(releases(ms))[best_upto(merits(ms), merits(ms).len() as int)].1;
        let keys = idxs.map_values(|i: int| (ms[i].disk as i64, ms[i].side as i64));
        arranged(idxs, stable_order(idxs.len(), by_pairs(keys)))
    }
}

/// A merit as it is reckoned.
struct Score {
    boots: bool,
    disks: usize,
    flags: u128,
    key: usize,
}

impl View for Score {
    type V = Merit;

    closed spec fn view(&self) -> Merit {
        Merit {
            boots: self.boots,
            disks: self.disks as nat,
            flags: self.flags as nat,
            key: self.key as nat,
        }
    }
}

fn improves(a: &Score, b: &Score) -> (r: bool)
    ensures
        r == better(a@, b@),
{
    if a.boots != b.boots {
        b.boots
    } else if a.disks != b.disks {
        a.disks < b.disks
    } else if a.flags != b.flags {
        a.flags > b.flags
    } else {
        a.key > b.key
    }
}

/// How many different disks these are.
fn count_disks(tags: &Vec<Tag>, idxs: &Vec<usize>) -> (n: usize)
    requires
        forall|k: int| 0 <= k < idxs@.len() ==> #[trigger] idxs@[k] < tags@.len(),
    ensures
        n == different(disks(arranged(marks(tags@), ints(idxs@)))),
{
    let ghost all = disks(arranged(marks(tags@), ints(idxs@)));
    let mut n: usize = 0;
    let mut i: usize = 0;
    assert(all.len() == idxs@.len());
    while i < idxs.len()
        invariant
            forall|k: int| 0 <= k < idxs@.len() ==> #[trigger] idxs@[k] < tags@.len(),
            all == disks(arranged(marks(tags@), ints(idxs@))),
            all.len() == idxs@.len(),
            i <= idxs@.len(),
            n <= i,
            n == different(all.take(i as int)),
        decreases idxs@.len() - i,
    {
        let d: i32 = tags[idxs[i]].disk;
        assert(d == all[i as int]);
        let mut seen = false;
        let mut k: usize = 0;
        while k < i && !seen
            invariant
                forall|k: int| 0 <= k < idxs@.len() ==> #[trigger] idxs@[k] < tags@.len(),
                all == disks(arranged(marks(tags@), ints(idxs@))),
                all.len() == idxs@.len(),
                k <= i < idxs@.len(),
                seen == exists|m: int| 0 <= m < k && #[trigger] all[m] == d,
            decreases i - k,
        {
            assert(tags@[idxs@[k as int] as int].disk == all[k as int]);
            if tags[idxs[k]].disk == d {
                seen = true;
            }
            k += 1;
        }
        proof {
            assert(all.take(i + 1).drop_last() =~= all.take(i as int));
            if seen {
                let m = choose|m: int| 0 <= m < k && #[trigger] all[m] == d;
                assert(all.take(i as int)[m] == d);
            } else {
                assert forall|m: int| 0 <= m < i implies all.take(i as int)[m] != d by {
                    assert(all[m] != d);
                }
            }
        }
        if !seen {
            n += 1;
        }
        i += 1;
    }
    assert(all.take(i as int) =~= all);
    n
}

fn score(tags: &Vec<Tag>, idxs: &Vec<usize>, key: &str) -> (s: Score)
    requires
        forall|k: int| 0 <= k < idxs@.len() ==> #[trigger] idxs@[k] < tags@.len(),
    ensures
        s@ == merit(arranged(marks(tags@), ints(idxs@)), key@),
{
    let ghost ms = arranged(marks(tags@), ints(idxs@));
    assert(ms.len() == idxs@.len());
    let mut boots = false;
    let mut sum: u128 = 0;
    let mut i: usize = 0;
    while i < idxs.len()
        invariant
            forall|k: int| 0 <= k < idxs@.len() ==> #[trigger] idxs@[k] < tags@.len(),
            ms == arranged(marks(tags@), ints(idxs@)),
            ms.len() == idxs@.len(),
            i <= idxs@.len(),
            boots == exists|k: int| 0 <= k < i && bootable(#[trigger] ms[k]),
            sum == flags(ms.take(i as int)),
            sum <= i * 0xffff_ffff_ffff_ffff,
        decreases idxs@.len() - i,
    {
        let t = &tags[idxs[i]];
        proof {
            assert(t@ == ms[i as int]);
            assert(ms.take(i + 1).drop_last() =~= ms.take(i as int));
            assert(i * 0xffff_ffff_ffff_ffff + 0xffff_ffff_ffff_ffff == (i + 1)
                * 0xffff_ffff_ffff_ffff) by (nonlinear_arith);
            assert((i + 1) * 0xffff_ffff_ffff_ffff <= 0xffff_ffff_ffff_ffff * 0xffff_ffff_ffff_ffff)
                by (nonlinear_arith)
                requires
                    i + 1 <= 0xffff_ffff_ffff_ffff,
            ;
        }
        if t.boots || (t.disk == 1 && (t.side == 0 || t.side == 1)) {
            boots = true;
        }
        sum = sum + t.brackets as u128;
        i += 1;
    }
    assert(ms.take(i as int) =~= ms);
    Score {
        boots,
        disks: count_disks(tags, idxs),
        flags: sum,
        key: chars_of(key).len(),
    }
}

/// The disks of the best release, by what their titles say.
pub fn choose_release(tags: &Vec<Tag>) -> (r: Vec<usize>)
    ensures
        ints(r@) == best_disks(marks(tags@)),
        forall|k: int| 0 <= k < r@.len() ==> #[trigger] r@[k] < tags@.len(),
{
    let ghost ms = marks(tags@);
    if tags.len() == 0 {
        let none: Vec<usize> = Vec::new();
        assert(ints(none@) =~= Seq::empty());
        return none;
    }
    let mut keys: Vec<String> = Vec::new();
    let mut i: usize = 0;
    while i < tags.len()
        invariant
            ms == marks(tags@),
            i <= tags@.len(),
            keys@.len() == i,
            forall|k: int| 0 <= k < i ==> (#[trigger] keys@[k])@ == releases(ms)[k],
        decreases tags@.len() - i,
    {
        keys.push(tags[i].release.clone());
        i += 1;
    }
    assert(texts(keys@) =~= releases(ms));
    let groups = group(&keys);
    proof {
        assert(groups_view(groups@).len() == groups@.len());
        lemma_first_seen(releases(ms));
        assert(releases(ms)[0] == releases(ms)[0]);
        assert(releases(ms).contains(releases(ms)[0]));
        assert(first_seen(releases(ms)).contains(releases(ms)[0]));
        assert(groups@.len() > 0);
        assert forall|g: int, k: int| 0 <= g < groups@.len() && 0 <= k < groups@[g].1@.len() implies (
        #[trigger] groups@[g].1@[k]) < tags@.len() by {
            assert(groups_view(groups@)[g] == grouped(releases(ms))[g]);
            let at = places(releases(ms), first_seen(releases(ms))[g]);
            lemma_places(releases(ms), first_seen(releases(ms))[g]);
            assert(group_view(groups@[g]).1 == at);
            assert(group_view(groups@[g]).1.len() == groups@[g].1@.len());
            assert(at[k] == groups@[g].1@[k]);
        }
    }
    let mut best: usize = 0;
    let mut top = score(tags, &groups[0].1, groups[0].0.as_str());
    assert(groups_view(groups@)[0] == grouped(releases(ms))[0]);
    assert(top@ == merits(ms)[0]);
    let mut g: usize = 1;
    while g < groups.len()
        invariant
            ms == marks(tags@),
            groups_view(groups@) == grouped(releases(ms)),
            groups@.len() == grouped(releases(ms)).len(),
            forall|g: int, k: int|
                0 <= g < groups@.len() && 0 <= k < groups@[g].1@.len() ==> (
                #[trigger] groups@[g].1@[k]) < tags@.len(),
            1 <= g <= groups@.len(),
            best < g,
            best == best_upto(merits(ms), g as int),
            top@ == merits(ms)[best as int],
        decreases groups@.len() - g,
    {
        assert(groups_view(groups@)[g as int] == grouped(releases(ms))[g as int]);
        let s = score(tags, &groups[g].1, groups[g].0.as_str());
        assert(s@ == merits(ms)[g as int]);
        if improves(&top, &s) {
            best = g;
            top = s;
        }
        g += 1;
    }
    assert(groups_view(groups@)[best as int] == grouped(releases(ms))[best as int]);
    let idxs = &groups[best].1;
    let ghost at = grouped(releases(ms))[best as int].1;
    assert(ints(idxs@) =~= at);
    let ghost goal = at.map_values(|i: int| (ms[i].disk as i64, ms[i].side as i64));
    let mut order_keys: Vec<(i64, i64)> = Vec::new();
    let mut k: usize = 0;
    while k < idxs.len()
        invariant
            ms == marks(tags@),
            forall|k: int| 0 <= k < idxs@.len() ==> #[trigger] idxs@[k] < tags@.len(),
            ints(idxs@) == at,
            goal == at.map_values(|i: int| (ms[i].disk as i64, ms[i].side as i64)),
            k <= idxs@.len(),
            order_keys@.len() == k,
            forall|m: int| 0 <= m < k ==> #[trigger] order_keys@[m] == goal[m],
        decreases idxs@.len() - k,
    {
        assert(ints(idxs@)[k as int] == idxs@[k as int]);
        order_keys.push((tags[idxs[k]].disk as i64, tags[idxs[k]].side as i64));
        k += 1;
    }
    assert(order_keys@ =~= goal);
    let p = order_by_pairs(&order_keys);
    let mut r: Vec<usize> = Vec::new();
    let mut n: usize = 0;
    assert(ints(p@).len() == p@.len());
    while n < p.len()
        invariant
            is_order(idxs@.len(), by_pairs(goal), ints(p@)),
            p@.len() == idxs@.len(),
            forall|k: int| 0 <= k < idxs@.len() ==> #[trigger] idxs@[k] < tags@.len(),
            n <= p@.len(),
            r@.len() == n,
            forall|m: int| 0 <= m < n ==> 0 <= #[trigger] ints(p@)[m] < idxs@.len(),
            forall|m: int| 0 <= m < n ==> #[trigger] r@[m] == idxs@[ints(p@)[m]],
        decreases p@.len() - n,
    {
        assert(ints(p@)[n as int] == p@[n as int]);
        r.push(idxs[p[n]]);
        n += 1;
    }
    assert(ints(r@) =~= arranged(at, ints(p@)));
    r
}

pub open spec fn offer_marks(os: Seq<Offer>) -> Seq<Mark> {
    os.map_values(|o: Offer| mark_of(o.title))
}

/// The disks of the best release among these offers.
pub open spec fn best_release_of(os: Seq<Offer>) -> Seq<Offer> {
    arranged(os, best_disks(offer_marks(os)))
}

/// The disks of the best release: one that starts before others, then the one
/// with the most disks; in the order in which they are loaded.
pub fn best_release(items: Vec<Item>) -> (r: Vec<Item>)
    ensures
        offers(r@) == best_release_of(offers(items@)),
{
    let mut tags: Vec<Tag> = Vec::new();
    let mut i: usize = 0;
    while i < items.len()
        invariant
            i <= items@.len(),
            tags@.len() == i,
            forall|k: int| 0 <= k < i ==> (#[trigger] tags@[k])@ == offer_marks(offers(items@))[k],
        decreases items@.len() - i,
    {
        tags.push(tag_of(items[i].1.as_str()));
        i += 1;
    }
    assert(marks(tags@) =~= offer_marks(offers(items@)));
    let idxs = choose_release(&tags);
    let mut r: Vec<Item> = Vec::new();
    let mut k: usize = 0;
    while k < idxs.len()
        invariant
            forall|k: int| 0 <= k < idxs@.len() ==> #[trigger] idxs@[k] < tags@.len(),
            tags@.len() == items@.len(),
            k <= idxs@.len(),
            r@.len() == k,
            forall|m: int|
                0 <= m < k ==> offer(#[trigger] r@[m]) == offers(items@)[ints(idxs@)[m]],
        decreases idxs@.len() - k,
    {
        assert(ints(idxs@)[k as int] == idxs@[k as int]);
        r.push(copy_item(&items[idxs[k]]));
        k += 1;
    }
    assert(offers(r@) =~= best_release_of(offers(items@)));
    r
}

// ---- laws -----------------------------------------------------------------------------------

proof fn lemma_better_transitive(a: Merit, b: Merit, c: Merit)
    requires
        !better(b, a),
        better(b, c),
    ensures
        better(a, c),
{
}

proof fn lemma_best_upto(ms: Seq<Merit>, n: int)
    requires
        0 < n <= ms.len(),
    ensures
        0 <= best_upto(ms, n) < n,
        forall|i: int| 0 <= i < n ==> !better(ms[best_upto(ms, n)], #[trigger] ms[i]),
        forall|i: int| 0 <= i < best_upto(ms, n) ==> better(#[trigger] ms[i], ms[best_upto(ms, n)]),
    decreases n,
{
    if n > 1 {
        lemma_best_upto(ms, n - 1);
        let b = best_upto(ms, n - 1);
        if better(ms[b], ms[n - 1]) {
            assert forall|i: int| 0 <= i < n - 1 implies better(#[trigger] ms[i], ms[n - 1]) by {
                lemma_better_transitive(ms[i], ms[b], ms[n - 1]);
            }
        }
    }
}

/// No release is better than the one that is chosen, and none that was seen
/// before it is as good.
pub proof fn law_best_release_wins(ms: Seq<Mark>, g: int)
    requires
        0 <= g < merits(ms).len(),
    ensures
        ({
            let b = best_upto(merits(ms), merits(ms).len() as int);
            &&& 0 <= b < merits(ms).len()
            &&& !better(merits(ms)[b], merits(ms)[g])
            &&& g < b ==> better(merits(ms)[g], merits(ms)[b])
        }),
{
    lemma_best_upto(merits(ms), merits(ms).len() as int);
    assert(0 <= g && merits(ms)[g] == merits(ms)[g]);
}

/// All disks that are chosen are of one release.
pub proof fn law_releases_are_not_mixed(ms: Seq<Mark>, i: int, j: int)
    requires
        0 <= i < best_disks(ms).len(),
        0 <= j < best_disks(ms).len(),
    ensures
        0 <= best_disks(ms)[i] < ms.len(),
        ms[best_disks(ms)[i]].release == ms[best_disks(ms)[j]].release,
{
    let keys = releases(ms);
    lemma_first_seen(keys);
    assert(keys.contains(keys[0]));
    assert(first_seen(keys).contains(keys[0]));
    let b = best_upto(merits(ms), merits(ms).len() as int);
    lemma_best_upto(merits(ms), merits(ms).len() as int);
    let idxs = grouped(keys)[b].1;
    lemma_places(keys, first_seen(keys)[b]);
    let order_keys = idxs.map_values(|i: int| (ms[i].disk as i64, ms[i].side as i64));
    lemma_order_below(idxs.len(), order_keys);
    let p = stable_order(idxs.len(), by_pairs(order_keys));
    assert(0 <= p[i] < idxs.len() && 0 <= p[j] < idxs.len());
    assert(keys[idxs[p[i]]] == first_seen(keys)[b]);
    assert(keys[idxs[p[j]]] == first_seen(keys)[b]);
}

/// The chosen disks come in the order of their numbers, and of their sides.
pub proof fn law_disks_come_in_order(ms: Seq<Mark>, i: int, j: int)
    requires
        0 <= i < j < best_disks(ms).len(),
    ensures
        ({
            let a = ms[best_disks(ms)[i]];
            let b = ms[best_disks(ms)[j]];
            a.disk < b.disk || (a.disk == b.disk && a.side <= b.side)
        }),
{
    let b = best_upto(merits(ms), merits(ms).len() as int);
    let idxs = grouped(releases(ms))[b].1;
    let keys = idxs.map_values(|i: int| (ms[i].disk as i64, ms[i].side as i64));
    lemma_order_below(idxs.len(), keys);
    let p = stable_order(idxs.len(), by_pairs(keys));
    assert(before(by_pairs(keys), p[i], p[j]));
    assert(by_pairs(keys)(p[i], p[j]));
}

// ---- what makes a release the best --------------------------------------------------------------------------

/// The disks of a release.
pub open spec fn of_release(ms: Seq<Mark>, release: Seq<char>) -> Seq<Mark> {
    ms.filter(|m: Mark| m.release == release)
}

/// A disk that starts the game: its title says so, or it is the first disk and on no side or
/// the first.
pub open spec fn starts(ms: Seq<Mark>) -> bool {
    exists|i: int|
        0 <= i < ms.len() && ((#[trigger] ms[i]).boots || (ms[i].disk == 1 && 0 <= ms[i].side <= 1))
}

/// How many disks are there, counted once each.
pub open spec fn disk_count(ms: Seq<Mark>) -> nat {
    ms.map_values(|m: Mark| m.disk).to_set().len()
}

proof fn lemma_different_is_a_count(s: Seq<i32>)
    ensures
        different(s) == s.to_set().len(),
        s.to_set().finite(),
    decreases s.len(),
{
    if s.len() == 0 {
        assert(s.to_set() =~= Set::empty());
    } else {
        let init = s.drop_last();
        lemma_different_is_a_count(init);
        assert(s.to_set() =~= init.to_set().insert(s.last())) by {
            assert forall|x: i32| s.to_set().contains(x) <==> init.to_set().insert(
                s.last(),
            ).contains(x) by {
                if s.contains(x) {
                    let i = s.index_of(x);
                    if i < init.len() {
                        assert(init[i] == x);
                    }
                }
                if init.contains(x) {
                    let i = init.index_of(x);
                    assert(s[i] == x);
                }
                assert(s[s.len() - 1] == s.last());
            }
        }
        if init.contains(s.last()) {
            assert(init.to_set().contains(s.last()));
            assert(init.to_set().insert(s.last()) =~= init.to_set());
        } else {
            assert(!init.to_set().contains(s.last()));
        }
    }
}

/// Numbers are counted once each, however often they occur.
pub proof fn law_different_numbers_are_counted(s: Seq<i32>)
    ensures
        different(s) == s.to_set().len(),
{
    lemma_different_is_a_count(s);
}

proof fn lemma_group_is_release(ms: Seq<Mark>, release: Seq<char>)
    ensures
        arranged(ms, places(releases(ms), release)) == of_release(ms, release),
    decreases ms.len(),
{
    reveal(Seq::filter);
    if ms.len() > 0 {
        let init = ms.drop_last();
        lemma_group_is_release(init, release);
        assert(releases(ms).drop_last() =~= releases(init));
        lemma_places(releases(init), release);
        let at = places(releases(init), release);
        assert(arranged(ms, at) =~= arranged(init, at));
        if ms.last().release == release {
            assert(arranged(ms, at.push(ms.len() - 1)) =~= arranged(init, at).push(ms.last()));
        }
    } else {
        assert(arranged(ms, places(releases(ms), release)) =~= of_release(ms, release));
    }
}

proof fn lemma_best_group(ms: Seq<Mark>) -> (b: int)
    requires
        ms.len() > 0,
    ensures
        b == best_upto(merits(ms), merits(ms).len() as int),
        0 <= b < merits(ms).len(),
        merits(ms).len() == first_seen(releases(ms)).len(),
        ({
            let r = first_seen(releases(ms))[b];
            let idxs = places(releases(ms), r);
            &&& idxs.len() > 0
            &&& best_disks(ms).len() == idxs.len()
            &&& forall|k: int|
                0 <= k < best_disks(ms).len() ==> 0 <= #[trigger] best_disks(ms)[k] < ms.len()
                    && ms[best_disks(ms)[k]].release == r
            &&& forall|i: int|
                0 <= i < ms.len() && (#[trigger] ms[i]).release == r ==> best_disks(ms).contains(i)
            &&& merits(ms)[b] == merit(of_release(ms, r), r)
        }),
{
    let rs = releases(ms);
    let gs = grouped(rs);
    crate::grouping::law_groups_keep_order(rs);
    crate::grouping::lemma_first_seen(rs);
    assert(rs.contains(rs[0]));
    law_best_release_wins(ms, 0);
    let b = best_upto(merits(ms), merits(ms).len() as int);
    let r = first_seen(rs)[b];
    let idxs = gs[b].1;
    assert(idxs == places(rs, r));
    lemma_places(rs, r);
    let keys = idxs.map_values(|i: int| (ms[i].disk as i64, ms[i].side as i64));
    lemma_pairs_compare(keys);
    let le = by_pairs(keys);
    law_order_exists(idxs.len(), le);
    let p = stable_order(idxs.len(), le);
    let d = best_disks(ms);
    assert(d == arranged(idxs, p));
    assert forall|k: int| 0 <= k < d.len() implies 0 <= #[trigger] d[k] < ms.len()
        && ms[d[k]].release == r by {
        assert(d[k] == idxs[p[k]]);
        assert(rs[idxs[p[k]]] == r);
    }
    assert forall|i: int| 0 <= i < ms.len() && (#[trigger] ms[i]).release == r implies d.contains(
        i,
    ) by {
        assert(rs[i] == r);
        assert(idxs.contains(i));
        let k = choose|k: int| 0 <= k < idxs.len() && idxs[k] == i;
        assert(p.contains(k));
        let n = choose|n: int| 0 <= n < p.len() && p[n] == k;
        assert(d[n] == i);
    }
    lemma_group_is_release(ms, r);
    b
}

/// The release that is chosen is there whole: its disks are those with its key, all of them.
pub proof fn law_the_best_release_is_whole(ms: Seq<Mark>, i: int)
    requires
        0 <= i < ms.len(),
    ensures
        best_disks(ms).len() > 0,
        best_disks(ms).contains(i) <==> ms[i].release == ms[best_disks(ms)[0]].release,
{
    let b = lemma_best_group(ms);
    let d = best_disks(ms);
    let r = first_seen(releases(ms))[b];
    assert(ms[d[0]].release == r);
    if d.contains(i) {
        let k = choose|k: int| 0 <= k < d.len() && d[k] == i;
        assert(ms[d[k]].release == r);
    }
}

proof fn lemma_starts(ms: Seq<Mark>)
    ensures
        any_bootable(ms) == starts(ms),
{
    if any_bootable(ms) {
        let i = choose|i: int| 0 <= i < ms.len() && bootable(#[trigger] ms[i]);
        assert(ms[i].boots || (ms[i].disk == 1 && 0 <= ms[i].side <= 1));
    }
    if starts(ms) {
        let i = choose|i: int|
            0 <= i < ms.len() && ((#[trigger] ms[i]).boots || (ms[i].disk == 1 && 0 <= ms[i].side
                <= 1));
        assert(bootable(ms[i]));
    }
}

/// Of the releases among some disks the one is chosen that starts; of those, or where none
/// does, the one with the most disks; then the one with the fewest flags; then the one with
/// the shortest key.
pub proof fn law_the_best_release_is_chosen(ms: Seq<Mark>, i: int)
    requires
        0 <= i < ms.len(),
    ensures
        ({
            let r = ms[best_disks(ms)[0]].release;
            let win = of_release(ms, r);
            let other = of_release(ms, ms[i].release);
            let as_good = starts(win) == starts(other);
            &&& starts(other) ==> starts(win)
            &&& as_good ==> disk_count(win) >= disk_count(other)
            &&& as_good && disk_count(win) == disk_count(other) ==> flags(win) <= flags(other)
            &&& as_good && disk_count(win) == disk_count(other) && flags(win) == flags(other)
                ==> r.len() <= ms[i].release.len()
        }),
{
    let rs = releases(ms);
    let b = lemma_best_group(ms);
    let r = first_seen(rs)[b];
    assert(ms[best_disks(ms)[0]].release == r);
    crate::grouping::lemma_first_seen(rs);
    assert(rs[i] == ms[i].release);
    assert(rs.contains(rs[i]));
    assert(first_seen(rs).contains(rs[i]));
    let g = first_seen(rs).index_of(rs[i]);
    law_best_release_wins(ms, g);
    lemma_group_is_release(ms, rs[i]);
    let win = of_release(ms, r);
    let other = of_release(ms, rs[i]);
    assert(merits(ms)[g] == merit(other, rs[i]));
    lemma_starts(win);
    lemma_starts(other);
    lemma_different_is_a_count(disks(win));
    lemma_different_is_a_count(disks(other));
    assert(disks(win) =~= win.map_values(|m: Mark| m.disk));
    assert(disks(other) =~= other.map_values(|m: Mark| m.disk));
}

/// The flags of two sets of disks together are those of the one and those of the other, and
/// a disk has as many as its title has opening brackets.
pub proof fn law_flags_add_up(a: Seq<Mark>, b: Seq<Mark>, title: Seq<char>)
    ensures
        flags(a + b) == flags(a) + flags(b),
        flags(seq![mark_of(title)]) == title.filter(|c: char| c == '[').len(),
    decreases b.len(),
{
    if b.len() == 0 {
        assert(a + b =~= a);
    } else {
        law_flags_add_up(a, b.drop_last(), title);
        assert((a + b).drop_last() =~= a + b.drop_last());
    }
    crate::text::law_counts_are_of_occurrences(title, '[');
    let one = seq![mark_of(title)];
    assert(one.drop_last() =~= Seq::empty());
    reveal_with_fuel(flags, 2);
}

/// A disk is the first unless its title numbers it, and on no side unless its title names
/// one, by a figure or by the place of a letter in the alphabet.
pub proof fn law_disks_and_sides_are_numbered(title: Seq<char>, k: u32)
    requires
        k < 4,
    ensures
        ({
            let l = lowered(title);
            let disk = first_group(matches_of(Pattern::DiskNumber, l));
            let side = first_group(matches_of(Pattern::SideNumber, l));
            let m = mark_of(title);
            &&& disk is None ==> m.disk == 1
            &&& disk is Some && number_of(disk->0) == Some(k as int) ==> m.disk == k
            &&& side is None ==> m.side == 0
            &&& side == Some(seq![(97 + k) as char]) ==> m.side == k + 1
            &&& side == Some(seq![(48 + k) as char]) ==> m.side == k
            &&& m.boots == has_part(l, "boot"@)
            &&& m.release == release_key_of(title)
        }),
{
    let a = (97 + k) as char;
    let d = (48 + k) as char;
    assert(a as u32 == 97 + k && d as u32 == 48 + k);
}

/// What is the same for all disks of a release keeps no bracket.
pub proof fn law_brackets_become_spaces(s: Seq<char>, i: int)
    requires
        0 <= i < s.len(),
    ensures
        unbracketed(s).len() == s.len(),
        s[i] == '(' || s[i] == ')' || s[i] == '[' || s[i] == ']' ==> unbracketed(s)[i] == ' ',
        s[i] != '(' && s[i] != ')' && s[i] != '[' && s[i] != ']' ==> unbracketed(s)[i] == s[i],
{
}

/// Titles in which neither a disk, a side nor a role is found are of the same release when
/// they agree in small letters, but for brackets and white space.
pub proof fn law_keys_of_releases(title: Seq<char>)
    requires
        matches_of(Pattern::DiskOf, lowered(title)).len() == 0,
        matches_of(Pattern::AnySide, lowered(title)).len() == 0,
        matches_of(Pattern::Role, lowered(title)).len() == 0,
    ensures
        release_key_of(title) == trimmed(collapsed(trimmed(unbracketed(lowered(title))))),
{
    let a = lowered(title);
    let none = Seq::<(int, int, Option<Seq<char>>)>::empty();
    assert(matches_of(Pattern::DiskOf, a) =~= none);
    assert(matches_of(Pattern::AnySide, a) =~= none);
    assert(matches_of(Pattern::Role, a) =~= none);
    crate::pattern::law_no_match_no_change(a, Seq::new(none.len(), |i: int| ""@));
}

/// What names a disk of a release is no part of the release's key: it is cut out.
pub proof fn law_disk_numbers_are_cut_out(title: Seq<char>, head: Seq<char>, disk: Seq<char>, tail: Seq<char>)
    requires
        lowered(title) == head + disk + tail,
        matches_of(Pattern::DiskOf, head + disk + tail).len() == 1,
        matches_of(Pattern::DiskOf, head + disk + tail)[0].0 == head.len(),
        matches_of(Pattern::DiskOf, head + disk + tail)[0].1 == head.len() + disk.len(),
        matches_of(Pattern::AnySide, head + tail).len() == 0,
        matches_of(Pattern::Role, head + tail).len() == 0,
    ensures
        release_key_of(title) == trimmed(collapsed(trimmed(unbracketed(head + tail)))),
{
    let a = head + disk + tail;
    let ms = matches_of(Pattern::DiskOf, a);
    let by = Seq::new(ms.len(), |i: int| ""@);
    reveal_strlit("");
    reveal_with_fuel(crate::pattern::spliced_upto, 2);
    assert(a.subrange(0, head.len() as int) =~= head);
    assert(a.skip(ms.last().1) =~= tail);
    assert(by[0] =~= Seq::empty());
    assert(crate::pattern::spliced(a, ms, by) =~= head + tail);
    let b = head + tail;
    let none = Seq::<(int, int, Option<Seq<char>>)>::empty();
    assert(matches_of(Pattern::AnySide, b) =~= none);
    assert(matches_of(Pattern::Role, b) =~= none);
    crate::pattern::law_no_match_no_change(b, Seq::new(none.len(), |i: int| ""@));
}

} // verus!
