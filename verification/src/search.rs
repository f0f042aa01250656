//! Choosing among the disks that the sources offer: exact matches first, then
//! similar titles, and of several sources the most complete.

use crate::disk::{coverage, got, titles_of, wanted};
use crate::grouping::{grouped, law_groups_keep_order};
use crate::keyed::{
    entered, entries, keys_differ, law_keys_stay_different, law_last_entry_wins, lemma_place_of,
    lookup, place_of, put, with_entry, Entries,
};
use crate::order::{
    before, by_pairs, by_texts, ints, is_order, law_order_exists, lemma_pairs_compare,
    lemma_texts_compare, stable_order,
};
use crate::pattern::Pattern;
use crate::releases::{
    best_disks, best_release, best_release_of, best_upto, copy_item, law_best_release_wins,
    law_releases_are_not_mixed, merits, offer, offer_marks, offers, releases, Item, Offer,
};
use crate::sections::arranged;
use crate::similarity::{
    alike, all_shares, by_ratios, is_alike, order_by_ratios, ratio_between, seq_ratio, Ratio,
};
use crate::table::{fields_view, records, records_of, table_text};
use crate::text::{lines_of, same, texts};
use crate::titles::{before_pattern, cut_pattern, game_title, game_title_of, norm, norm_of};
use crate::tosec::{
    entries_of_lines, entry_records, fits_entry, is_one_of, law_entries_come_back, sort_entries,
    sorted_entries, tosec_entries, write_entries,
};
use vstd::prelude::*;

verus! {

// ---- exact matches ---------------------------------------------------------------------------

/// The places among the first `n` of these keys that are the key sought.
pub open spec fn exact_upto(keys: Seq<Seq<char>>, key: Seq<char>, n: int) -> Seq<int>
    decreases n,
{
    if n <= 0 {
        Seq::empty()
    } else if keys[n - 1] == key {
        exact_upto(keys, key, n - 1).push(n - 1)
    } else {
        exact_upto(keys, key, n - 1)
    }
}

/// The offers whose game has this key.
pub open spec fn exact_offers(os: Seq<Offer>, keys: Seq<Seq<char>>, key: Seq<char>) -> Seq<Offer> {
    arranged(os, exact_upto(keys, key, keys.len() as int))
}

/// The items whose game has a key, when the keys of the items are known.
pub fn exact_matches(results: &Vec<Item>, keys: &Vec<String>, key: &str) -> (r: Vec<Item>)
    requires
        keys@.len() == results@.len(),
    ensures
        offers(r@) == exact_offers(offers(results@), texts(keys@), key@),
{
    let ghost ks = texts(keys@);
    let ghost os = offers(results@);
    let mut r: Vec<Item> = Vec::new();
    let mut i: usize = 0;
    assert(offers(r@) =~= arranged(os, exact_upto(ks, key@, 0)));
    while i < keys.len()
        invariant
            ks == texts(keys@),
            os == offers(results@),
            keys@.len() == results@.len(),
            i <= keys@.len(),
            offers(r@) == arranged(os, exact_upto(ks, key@, i as int)),
        decreases keys@.len() - i,
    {
        assert(ks[i as int] == keys@[i as int]@);
        assert(os[i as int] == offer(results@[i as int]));
        if same(keys[i].as_str(), key) {
            let it = copy_item(&results[i]);
            assert(offers(r@.push(it)) =~= offers(r@).push(offer(it)));
            assert(arranged(os, exact_upto(ks, key@, i + 1)) =~= arranged(
                os,
                exact_upto(ks, key@, i as int),
            ).push(os[i as int]));
            r.push(it);
        }
        i += 1;
    }
    assert(ks.len() == keys@.len());
    r
}

// ---- similar titles -----------------------------------------------------------------------------

/// A key that is like the one sought. (Two texts too long to be counted together
/// are not compared.)
pub open spec fn is_like(q: Seq<char>, key: Seq<char>) -> bool {
    q.len() + key.len() <= u64::MAX && alike(ratio_between(q, key))
}

/// The places among the first `n` of these keys that are like the one sought.
pub open spec fn like_upto(keys: Seq<Seq<char>>, q: Seq<char>, n: int) -> Seq<int>
    decreases n,
{
    if n <= 0 {
        Seq::empty()
    } else if is_like(q, keys[n - 1]) {
        like_upto(keys, q, n - 1).push(n - 1)
    } else {
        like_upto(keys, q, n - 1)
    }
}

/// The shares of the keys at these places.
pub open spec fn shares(keys: Seq<Seq<char>>, q: Seq<char>, idxs: Seq<int>) -> Seq<Ratio> {
    idxs.map_values(|i: int| ratio_between(q, keys[i]))
}

/// How many similar titles are offered.
pub const POOL: usize = 20;

/// The places of the keys most like the one sought, the most alike first.
pub open spec fn most_like(keys: Seq<Seq<char>>, q: Seq<char>) -> Seq<int> {
    let idxs = like_upto(keys, q, keys.len() as int);
    let sorted = arranged(idxs, stable_order(idxs.len(), by_ratios(shares(keys, q, idxs))));
    if sorted.len() > POOL {
        sorted.take(POOL as int)
    } else {
        sorted
    }
}

/// The places of the keys most like the one sought.
pub fn similar(keys: &Vec<String>, q: &str) -> (r: Vec<usize>)
    ensures
        ints(r@) == most_like(texts(keys@), q@),
        forall|k: int| 0 <= k < r@.len() ==> #[trigger] r@[k] < keys@.len(),
{
    let ghost ks = texts(keys@);
    let mut idxs: Vec<usize> = Vec::new();
    let mut rs: Vec<Ratio> = Vec::new();
    let mut i: usize = 0;
    assert(ints(idxs@) =~= like_upto(ks, q@, 0));
    assert(rs@ =~= shares(ks, q@, ints(idxs@)));
    while i < keys.len()
        invariant
            ks == texts(keys@),
            i <= keys@.len(),
            ints(idxs@) == like_upto(ks, q@, i as int),
            rs@ == shares(ks, q@, ints(idxs@)),
            idxs@.len() == rs@.len(),
            all_shares(rs@),
            forall|k: int| 0 <= k < idxs@.len() ==> #[trigger] idxs@[k] < keys@.len(),
        decreases keys@.len() - i,
    {
        assert(ks[i as int] == keys@[i as int]@);
        match seq_ratio(q, keys[i].as_str()) {
            Some(ratio) => if is_alike(ratio) {
                proof {
                    crate::similarity::law_ratio_is_a_share(ratio, q@, ks[i as int]);
                    assert(ints(idxs@.push(i)) =~= ints(idxs@).push(i as int));
                    assert(shares(ks, q@, ints(idxs@).push(i as int)) =~= rs@.push(ratio));
                }
                idxs.push(i);
                rs.push(ratio);
            },
            None => {},
        }
        i += 1;
    }
    assert(ks.len() == keys@.len());
    let ghost at = like_upto(ks, q@, ks.len() as int);
    let p = order_by_ratios(&rs);
    let mut r: Vec<usize> = Vec::new();
    let mut n: usize = 0;
    assert(ints(p@).len() == p@.len());
    while n < p.len()
        invariant
            ints(idxs@) == at,
            idxs@.len() == at.len(),
            is_order(at.len(), by_ratios(rs@), ints(p@)),
            p@.len() == at.len(),
            forall|k: int| 0 <= k < idxs@.len() ==> #[trigger] idxs@[k] < keys@.len(),
            n <= p@.len(),
            r@.len() == n,
            forall|m: int| 0 <= m < n ==> 0 <= #[trigger] ints(p@)[m] < at.len(),
            forall|m: int| 0 <= m < n ==> #[trigger] r@[m] == idxs@[ints(p@)[m]],
        decreases p@.len() - n,
    {
        assert(ints(p@)[n as int] == p@[n as int]);
        r.push(idxs[p[n]]);
        n += 1;
    }
    let ghost sorted = arranged(at, ints(p@));
    assert(ints(r@) =~= sorted);
    if r.len() > POOL {
        r.truncate(POOL);
        assert(ints(r@) =~= sorted.take(POOL as int));
    }
    r
}

// ---- resolving a query ------------------------------------------------------------------------------

pub open spec fn title_keys(os: Seq<Offer>) -> Seq<Seq<char>> {
    os.map_values(|o: Offer| game_title_of(o.title))
}

/// What a source's offers come to: the disks of a release, or similar titles to
/// choose from.
#[derive(Debug)]
pub enum Resolution {
    Settled(Vec<Item>),
    Choose(Vec<Item>),
}

/// A resolution in terms of offers.
pub enum Resolved {
    Settled(Seq<Offer>),
    Choose(Seq<Offer>),
}

impl View for Resolution {
    type V = Resolved;

    open spec fn view(&self) -> Resolved {
        match *self {
            Resolution::Settled(v) => Resolved::Settled(offers(v@)),
            Resolution::Choose(v) => Resolved::Choose(offers(v@)),
        }
    }
}

/// The release of the game that a title names.
pub open spec fn release_with_key(
    os: Seq<Offer>,
    keys: Seq<Seq<char>>,
    key: Seq<char>,
) -> Seq<Offer> {
    best_release_of(exact_offers(os, keys, key))
}

/// What offers with these keys come to for a query with the key `q`. Games with
/// that very key win; strict queries stop there; others go on to similar titles,
/// of which a single one needs no choice.
pub open spec fn resolved(os: Seq<Offer>, keys: Seq<Seq<char>>, q: Seq<char>, strict: bool) -> Resolved {
    if q.len() == 0 {
        Resolved::Settled(Seq::empty())
    } else if exact_offers(os, keys, q).len() > 0 {
        Resolved::Settled(release_with_key(os, keys, q))
    } else if strict || most_like(keys, q).len() == 0 {
        Resolved::Settled(Seq::empty())
    } else if most_like(keys, q).len() == 1 {
        Resolved::Settled(release_with_key(os, keys, keys[most_like(keys, q)[0]]))
    } else {
        Resolved::Choose(arranged(os, most_like(keys, q)))
    }
}

fn keys_of(results: &Vec<Item>) -> (r: Vec<String>)
    ensures
        texts(r@) == title_keys(offers(results@)),
        r@.len() == results@.len(),
{
    let mut r: Vec<String> = Vec::new();
    let mut i: usize = 0;
    while i < results.len()
        invariant
            i <= results@.len(),
            r@.len() == i,
            forall|k: int| 0 <= k < i ==> (#[trigger] r@[k])@ == title_keys(offers(results@))[k],
        decreases results@.len() - i,
    {
        r.push(game_title(results[i].1.as_str()));
        i += 1;
    }
    assert(texts(r@) =~= title_keys(offers(results@)));
    r
}

/// What offers with known keys come to for a query's key.
pub fn resolve_keys(results: &Vec<Item>, keys: &Vec<String>, qn: &str, strict: bool) -> (r:
    Resolution)
    requires
        keys@.len() == results@.len(),
    ensures
        r@ == resolved(offers(results@), texts(keys@), qn@, strict),
{
    let ghost ks = texts(keys@);
    let ghost os = offers(results@);
    let nothing: Vec<Item> = Vec::new();
    assert(offers(nothing@) =~= Seq::empty());
    if qn.is_empty() {
        return Resolution::Settled(nothing);
    }
    let exact = exact_matches(results, keys, qn);
    assert(offers(exact@).len() == exact@.len());
    if exact.len() > 0 {
        return Resolution::Settled(best_release(exact));
    }
    if strict {
        return Resolution::Settled(nothing);
    }
    let pool = similar(keys, qn);
    assert(ints(pool@).len() == pool@.len());
    if pool.len() == 0 {
        return Resolution::Settled(nothing);
    }
    if pool.len() == 1 {
        assert(ints(pool@)[0] == pool@[0]);
        assert(ks[pool@[0] as int] == keys@[pool@[0] as int]@);
        let same_game = exact_matches(results, keys, keys[pool[0]].as_str());
        return Resolution::Settled(best_release(same_game));
    }
    let mut choices: Vec<Item> = Vec::new();
    let mut i: usize = 0;
    while i < pool.len()
        invariant
            os == offers(results@),
            keys@.len() == results@.len(),
            forall|k: int| 0 <= k < pool@.len() ==> #[trigger] pool@[k] < keys@.len(),
            i <= pool@.len(),
            choices@.len() == i,
            forall|k: int| 0 <= k < i ==> offer(#[trigger] choices@[k]) == os[ints(pool@)[k]],
        decreases pool@.len() - i,
    {
        assert(ints(pool@)[i as int] == pool@[i as int]);
        assert(os[pool@[i as int] as int] == offer(results@[pool@[i as int] as int]));
        choices.push(copy_item(&results[pool[i]]));
        i += 1;
    }
    assert(offers(choices@) =~= arranged(os, ints(pool@)));
    Resolution::Choose(choices)
}

/// What a source's offers come to for a query.
pub fn resolve(query: &str, strict: bool, results: &Vec<Item>) -> (r: Resolution)
    ensures
        r@ == resolved(
            offers(results@),
            title_keys(offers(results@)),
            norm_of(query@),
            strict,
        ),
{
    let keys = keys_of(results);
    resolve_keys(results, &keys, norm(query).as_str(), strict)
}

/// The release of the game whose title was chosen.
pub fn resolve_choice(results: &Vec<Item>, title: &str) -> (r: Vec<Item>)
    ensures
        offers(r@) == release_with_key(
            offers(results@),
            title_keys(offers(results@)),
            game_title_of(title@),
        ),
{
    let keys = keys_of(results);
    best_release(exact_matches(results, &keys, game_title(title).as_str()))
}

// ---- several sources -----------------------------------------------------------------------------------

/// The best release so far while the sources are asked in turn.
pub struct Chooser {
    pub strict: bool,
    pub best: Vec<Item>,
    /// The disks it has; -1 when there is none yet.
    pub best_cov: i128,
}

/// A chooser's state.
#[verifier::ext_equal]
pub struct Choice {
    pub strict: bool,
    pub best: Seq<Offer>,
    pub best_cov: int,
}

impl View for Chooser {
    type V = Choice;

    open spec fn view(&self) -> Choice {
        Choice { strict: self.strict, best: offers(self.best@), best_cov: self.best_cov as int }
    }
}

impl Choice {
    /// The choice after one more source offered a release, and whether it is
    /// final. The first release will do unless the query is strict; then a
    /// complete one is final, and of incomplete ones the one with the most disks is
    /// kept, the first of them.
    pub open spec fn offered(self, r: Seq<Offer>) -> (Choice, bool) {
        let cov = got(titles_of(r)) as int;
        if r.len() == 0 {
            (self, false)
        } else if !self.strict {
            (Choice { best: r, ..self }, true)
        } else if cov >= wanted(titles_of(r)) {
            (
                Choice {
                    best: r,
                    best_cov: if cov > self.best_cov {
                        cov
                    } else {
                        self.best_cov
                    },
                    ..self
                },
                true,
            )
        } else if cov > self.best_cov {
            (Choice { best: r, best_cov: cov, ..self }, false)
        } else {
            (self, false)
        }
    }
}

impl Chooser {
    /// No release yet.
    pub fn new(strict: bool) -> (c: Chooser)
        ensures
            c@ == (Choice { strict, best: Seq::empty(), best_cov: -1 }),
    {
        let c = Chooser { strict, best: Vec::new(), best_cov: -1 };
        assert(offers(c.best@) =~= Seq::empty());
        c
    }

    /// Takes a source's release into account. Returns whether the choice is final.
    pub fn consider(&mut self, r: Vec<Item>) -> (done: bool)
        ensures
            (final(self)@, done) == old(self)@.offered(offers(r@)),
    {
        assert(offers(r@).len() == r@.len());
        if r.len() == 0 {
            return false;
        }
        if !self.strict {
            self.best = r;
            return true;
        }
        let (cov, want): (usize, i32) = coverage(r.as_slice());
        let cov: i128 = cov as i128;
        let complete = cov >= want as i128;
        if cov > self.best_cov {
            self.best_cov = cov;
            self.best = r;
            return complete;
        }
        if complete {
            self.best = r;
        }
        complete
    }
}

/// Whatever the sources offer in turn, what is chosen is one source's release,
/// whole: releases of different sources are never mixed.
pub proof fn law_sources_are_not_mixed(c: Choice, r: Seq<Offer>)
    ensures
        c.offered(r).0.best == c.best || c.offered(r).0.best == r,
{
}

/// A strict choice never gives up disks that it had, unless for a complete release.
pub proof fn law_strict_choice_keeps_the_most(c: Choice, r: Seq<Offer>)
    requires
        c.strict,
        c.best_cov == got(titles_of(c.best)),
    ensures
        !c.offered(r).1 ==> got(titles_of(c.offered(r).0.best)) >= got(titles_of(c.best)),
{
}

// ---- what is missing ---------------------------------------------------------------------------------------

/// The titles of the games on disk, in the index.
pub open spec fn owned_titles(rs: Seq<Seq<Seq<char>>>) -> Seq<Seq<char>>
    decreases rs.len(),
{
    if rs.len() == 0 {
        Seq::empty()
    } else {
        let f = rs.last();
        let init = owned_titles(rs.drop_last());
        if f.len() >= 5 && f[1] == "local"@ {
            init.push(f[3])
        } else {
            init
        }
    }
}

/// The titles of the ranked list that are not owned, without their subtitles.
pub open spec fn not_owned(rs: Seq<Seq<Seq<char>>>, owned: Seq<Seq<char>>) -> Seq<Seq<char>>
    decreases rs.len(),
{
    if rs.len() == 0 {
        Seq::empty()
    } else {
        let f = rs.last();
        let init = not_owned(rs.drop_last(), owned);
        if f.len() == 4 && !owned.contains(f[3]) {
            init.push(before_pattern(f[3], Pattern::Subtitle))
        } else {
            init
        }
    }
}

fn list_owned(index: &str) -> (r: Vec<String>)
    ensures
        texts(r@) == owned_titles(records_of(index@)),
{
    let rs = records(index);
    let ghost all = fields_view(rs@);
    let mut r: Vec<String> = Vec::new();
    let mut i: usize = 0;
    assert(texts(r@) =~= owned_titles(all.take(0)));
    while i < rs.len()
        invariant
            all == fields_view(rs@),
            i <= rs@.len(),
            texts(r@) == owned_titles(all.take(i as int)),
        decreases rs@.len() - i,
    {
        let f = &rs[i];
        proof {
            assert(all.take(i + 1).drop_last() =~= all.take(i as int));
            assert(all[i as int] == texts(f@));
        }
        if f.len() >= 5 {
            assert(texts(f@)[1] == f@[1]@ && texts(f@)[3] == f@[3]@);
            if same(f[1].as_str(), "local") {
                let t = f[3].clone();
                assert(texts(r@.push(t)) =~= texts(r@).push(t@));
                r.push(t);
            }
        }
        i += 1;
    }
    assert(all.take(i as int) =~= all);
    r
}

/// The titles of the ranked list that are not on disk.
pub fn missing_titles(index: &str, popularity: &str) -> (r: Vec<String>)
    ensures
        texts(r@) == not_owned(records_of(popularity@), owned_titles(records_of(index@))),
{
    let owned = list_owned(index);
    let ghost have = texts(owned@);
    let rs = records(popularity);
    let ghost all = fields_view(rs@);
    let mut r: Vec<String> = Vec::new();
    let mut i: usize = 0;
    assert(texts(r@) =~= not_owned(all.take(0), have));
    while i < rs.len()
        invariant
            all == fields_view(rs@),
            have == texts(owned@),
            i <= rs@.len(),
            texts(r@) == not_owned(all.take(i as int), have),
        decreases rs@.len() - i,
    {
        let f = &rs[i];
        proof {
            assert(all.take(i + 1).drop_last() =~= all.take(i as int));
            assert(all[i as int] == texts(f@));
        }
        if f.len() == 4 {
            assert(texts(f@)[3] == f@[3]@);
            if !is_one_of(&owned, f[3].as_str()) {
                let t = cut_pattern(f[3].as_str(), Pattern::Subtitle);
                assert(texts(r@.push(t)) =~= texts(r@).push(t@));
                r.push(t);
            }
        }
        i += 1;
    }
    assert(all.take(i as int) =~= all);
    r
}

// ---- the log of downloads --------------------------------------------------------------------------------------

/// The log with one more download, in the order of the identifiers.
pub open spec fn downloads_with(text: Seq<char>, ident: Seq<char>, path: Seq<char>) -> Entries {
    sorted_entries(with_entry(entered(entries_of_lines(lines_of(text))), ident, path))
}

/// Reads entries of which the last under a key stands.
pub fn read_entered(text: &str) -> (v: Vec<(String, String)>)
    ensures
        entries(v@) == entered(entries_of_lines(lines_of(text@))),
{
    let es = tosec_entries(text);
    let ghost all = entries(es@);
    let mut v: Vec<(String, String)> = Vec::new();
    let mut i: usize = 0;
    assert(entries(v@) =~= entered(all.take(0)));
    while i < es.len()
        invariant
            all == entries(es@),
            i <= es@.len(),
            entries(v@) == entered(all.take(i as int)),
        decreases es@.len() - i,
    {
        proof {
            assert(all.take(i + 1).drop_last() =~= all.take(i as int));
            assert(all[i as int] == (es@[i as int].0@, es@[i as int].1@));
        }
        put(&mut v, es[i].0.clone(), es[i].1.clone());
        i += 1;
    }
    assert(all.take(i as int) =~= all);
    v
}

/// The text of the log of downloads with one more.
pub fn record_download(text: &str, ident: &str, path: &str) -> (r: String)
    ensures
        r@ == table_text(entry_records(downloads_with(text@, ident@, path@))),
{
    let mut v = read_entered(text);
    put(&mut v, ident.to_owned(), path.to_owned());
    write_entries(&sort_entries(&v))
}

proof fn lemma_entered_keys_differ(es: Entries)
    ensures
        keys_differ(entered(es)),
    decreases es.len(),
{
    if es.len() > 0 {
        lemma_entered_keys_differ(es.drop_last());
        law_keys_stay_different(entered(es.drop_last()), es.last().0, es.last().1);
    }
}

proof fn lemma_entered_again(s: Entries)
    requires
        keys_differ(s),
    ensures
        entered(s) == s,
    decreases s.len(),
{
    if s.len() > 0 {
        let init = s.drop_last();
        assert(keys_differ(init)) by {
            assert forall|i: int, j: int| 0 <= i < j < init.len() implies (#[trigger] init[i]).0 != (
            #[trigger] init[j]).0 by {
                assert(s[i].0 != s[j].0);
            }
        }
        lemma_entered_again(init);
        let key = s.last().0;
        lemma_place_of(init, key, 0);
        match place_of(init, key, 0) {
            Some(i) => {
                assert(s[i].0 != s[s.len() - 1].0);
            },
            None => {},
        }
        assert(s =~= init.push(s.last()));
    } else {
        assert(entered(s) =~= s);
    }
}

proof fn lemma_sorted_lookup(s: Entries, key: Seq<char>)
    requires
        keys_differ(s),
    ensures
        keys_differ(sorted_entries(s)),
        lookup(sorted_entries(s), key) == lookup(s, key),
        forall|i: int|
            0 <= i < sorted_entries(s).len() ==> s.contains(#[trigger] sorted_entries(s)[i]),
{
    let keys = s.map_values(|e: (Seq<char>, Seq<char>)| e.0);
    let le = by_texts(keys);
    lemma_texts_compare(keys);
    law_order_exists(s.len(), le);
    let p = stable_order(s.len(), le);
    let t = sorted_entries(s);
    assert forall|i: int, j: int| 0 <= i < j < t.len() implies (#[trigger] t[i]).0 != (
    #[trigger] t[j]).0 by {
        assert(before(le, p[i], p[j]));
        if p[i] == p[j] {
            assert(false);
        }
        if p[i] < p[j] {
            assert(s[p[i]].0 != s[p[j]].0);
        } else {
            assert(s[p[j]].0 != s[p[i]].0);
        }
    }
    lemma_place_of(s, key, 0);
    lemma_place_of(t, key, 0);
    match (place_of(s, key, 0), place_of(t, key, 0)) {
        (Some(i), Some(j)) => {
            assert(t[j] == s[p[j]]);
            if p[j] < i {
                assert(s[p[j]].0 != s[i].0);
            }
            if i < p[j] {
                assert(s[i].0 != s[p[j]].0);
            }
        },
        (Some(i), None) => {
            assert(p.contains(i));
            let j = choose|j: int| 0 <= j < p.len() && p[j] == i;
            assert(t[j] == s[i]);
        },
        (None, Some(j)) => {
            assert(t[j] == s[p[j]]);
        },
        (None, None) => {},
    }
    assert forall|i: int| 0 <= i < t.len() implies s.contains(#[trigger] t[i]) by {
        assert(t[i] == s[p[i]]);
    }
}

/// A recorded download is found again under its identifier when the log is read,
/// and the others are found as before.
pub proof fn law_download_is_remembered(
    text: Seq<char>,
    ident: Seq<char>,
    path: Seq<char>,
    other: Seq<char>,
)
    requires
        fits_entry((ident, path)),
        forall|i: int|
            0 <= i < entered(entries_of_lines(lines_of(text))).len() ==> fits_entry(
                #[trigger] entered(entries_of_lines(lines_of(text)))[i],
            ),
    ensures
        ({
            let before = entered(entries_of_lines(lines_of(text)));
            let written = table_text(entry_records(downloads_with(text, ident, path)));
            let after = entered(entries_of_lines(lines_of(written)));
            &&& lookup(after, ident) == Some(path)
            &&& other != ident ==> lookup(after, other) == lookup(before, other)
        }),
{
    let old_log = entered(entries_of_lines(lines_of(text)));
    let new_log = with_entry(old_log, ident, path);
    lemma_entered_keys_differ(entries_of_lines(lines_of(text)));
    law_keys_stay_different(old_log, ident, path);
    lemma_sorted_lookup(new_log, ident);
    lemma_sorted_lookup(new_log, other);
    let sorted = downloads_with(text, ident, path);
    lemma_place_of(old_log, ident, 0);
    assert forall|i: int| 0 <= i < sorted.len() implies fits_entry(#[trigger] sorted[i]) by {
        assert(new_log.contains(sorted[i]));
        let k = choose|k: int| 0 <= k < new_log.len() && new_log[k] == sorted[i];
        if k < old_log.len() && new_log[k] == old_log[k] {
            assert(fits_entry(old_log[k]));
        }
    }
    law_entries_come_back(sorted);
    lemma_entered_again(sorted);
    law_last_entry_wins(old_log, ident, path, other);
}

// ---- what a query comes to -----------------------------------------------------------------------------------

proof fn lemma_exact_upto(keys: Seq<Seq<char>>, key: Seq<char>, n: int)
    requires
        0 <= n <= keys.len(),
    ensures
        forall|k: int|
            0 <= k < exact_upto(keys, key, n).len() ==> 0 <= #[trigger] exact_upto(keys, key, n)[k]
                < n && keys[exact_upto(keys, key, n)[k]] == key,
        forall|i: int|
            0 <= i < n && #[trigger] keys[i] == key ==> exact_upto(keys, key, n).contains(i),
        forall|i: int, j: int|
            0 <= i < j < exact_upto(keys, key, n).len() ==> #[trigger] exact_upto(keys, key, n)[i]
                < #[trigger] exact_upto(keys, key, n)[j],
    decreases n,
{
    if n > 0 {
        lemma_exact_upto(keys, key, n - 1);
        let init = exact_upto(keys, key, n - 1);
        let all = exact_upto(keys, key, n);
        assert forall|i: int| 0 <= i < n && #[trigger] keys[i] == key implies all.contains(i) by {
            if i < n - 1 {
                let k = choose|k: int| 0 <= k < init.len() && init[k] == i;
                assert(all[k] == i);
            } else {
                assert(all[all.len() - 1] == i);
            }
        }
    }
}

proof fn lemma_release_found(os: Seq<Offer>)
    requires
        os.len() > 0,
    ensures
        best_release_of(os).len() > 0,
        forall|k: int|
            0 <= k < best_release_of(os).len() ==> 0 <= #[trigger] best_disks(offer_marks(os))[k]
                < os.len() && best_release_of(os)[k] == os[best_disks(offer_marks(os))[k]],
{
    let ms = offer_marks(os);
    let gs = grouped(releases(ms));
    law_groups_keep_order(releases(ms));
    crate::grouping::lemma_first_seen(releases(ms));
    assert(releases(ms).contains(releases(ms)[0]));
    assert(gs.len() > 0);
    law_best_release_wins(ms, 0);
    let idxs = gs[best_upto(merits(ms), merits(ms).len() as int)].1;
    let keys = idxs.map_values(|i: int| (ms[i].disk as i64, ms[i].side as i64));
    lemma_pairs_compare(keys);
    law_order_exists(idxs.len(), by_pairs(keys));
    assert(best_disks(ms).len() == idxs.len());
    assert forall|k: int| 0 <= k < best_release_of(os).len() implies 0 <= #[trigger] best_disks(
        ms,
    )[k] < os.len() && best_release_of(os)[k] == os[best_disks(ms)[k]] by {
        law_releases_are_not_mixed(ms, k, k);
    }
}

proof fn lemma_release_with_key(os: Seq<Offer>, keys: Seq<Seq<char>>, q: Seq<char>, i: int)
    requires
        keys.len() == os.len(),
        0 <= i < os.len(),
        keys[i] == q,
    ensures
        exact_offers(os, keys, q).len() > 0,
        release_with_key(os, keys, q).len() > 0,
        forall|k: int|
            0 <= k < release_with_key(os, keys, q).len() ==> exists|j: int|
                0 <= j < os.len() && os[j] == #[trigger] release_with_key(os, keys, q)[k] && #[trigger] keys[j] == q,
{
    let at = exact_upto(keys, q, keys.len() as int);
    lemma_exact_upto(keys, q, keys.len() as int);
    assert(keys[i] == q);
    let ex = exact_offers(os, keys, q);
    assert(ex.len() == at.len());
    lemma_release_found(ex);
    let r = release_with_key(os, keys, q);
    assert forall|k: int| 0 <= k < r.len() implies exists|j: int|
        0 <= j < os.len() && os[j] == #[trigger] r[k] && #[trigger] keys[j] == q by {
        let d = best_disks(offer_marks(ex))[k];
        assert(r[k] == ex[d]);
        assert(ex[d] == os[at[d]]);
        assert(keys[at[d]] == q);
    }
}

/// Where an offer has the very key of the query, the query is settled with a release of that
/// game, whether it is strict or not: every disk of it is an offer with that key, and there
/// is one at least.
pub proof fn law_exact_matches_settle(
    os: Seq<Offer>,
    keys: Seq<Seq<char>>,
    q: Seq<char>,
    strict: bool,
    i: int,
)
    requires
        keys.len() == os.len(),
        0 <= i < os.len(),
        keys[i] == q,
        q.len() > 0,
    ensures
        match resolved(os, keys, q, strict) {
            Resolved::Settled(found) => found.len() > 0 && forall|k: int|
                0 <= k < found.len() ==> exists|j: int|
                    0 <= j < os.len() && os[j] == #[trigger] found[k] && #[trigger] keys[j] == q,
            Resolved::Choose(_) => false,
        },
        resolved(os, keys, q, strict) == resolved(os, keys, q, !strict),
{
    lemma_release_with_key(os, keys, q, i);
}

/// A query without a key finds nothing, and a strict one finds nothing where no offer has its
/// key.
pub proof fn law_strict_queries_take_no_other(
    os: Seq<Offer>,
    keys: Seq<Seq<char>>,
    q: Seq<char>,
    strict: bool,
)
    requires
        keys.len() == os.len(),
        q.len() == 0 || (strict && forall|i: int| 0 <= i < keys.len() ==> #[trigger] keys[i] != q),
    ensures
        resolved(os, keys, q, strict) == Resolved::Settled(Seq::<Offer>::empty()),
{
    let at = exact_upto(keys, q, keys.len() as int);
    lemma_exact_upto(keys, q, keys.len() as int);
    if q.len() > 0 && at.len() > 0 {
        assert(keys[at[0]] == q);
    }
    assert(exact_offers(os, keys, q).len() == at.len());
}

proof fn lemma_like_upto(keys: Seq<Seq<char>>, q: Seq<char>, n: int)
    requires
        0 <= n <= keys.len(),
    ensures
        forall|k: int|
            0 <= k < like_upto(keys, q, n).len() ==> 0 <= #[trigger] like_upto(keys, q, n)[k] < n
                && is_like(q, keys[like_upto(keys, q, n)[k]]),
        forall|i: int| 0 <= i < n && is_like(q, #[trigger] keys[i]) ==> like_upto(keys, q, n).contains(i),
        forall|i: int, j: int|
            0 <= i < j < like_upto(keys, q, n).len() ==> #[trigger] like_upto(keys, q, n)[i]
                < #[trigger] like_upto(keys, q, n)[j],
    decreases n,
{
    if n > 0 {
        lemma_like_upto(keys, q, n - 1);
        let init = like_upto(keys, q, n - 1);
        let all = like_upto(keys, q, n);
        assert forall|i: int| 0 <= i < n && is_like(q, #[trigger] keys[i]) implies all.contains(i) by {
            if i < n - 1 {
                let k = choose|k: int| 0 <= k < init.len() && init[k] == i;
                assert(all[k] == i);
            } else {
                assert(all[all.len() - 1] == i);
            }
        }
    }
}

/// Two keys are alike when at least forty-five in a hundred of their characters match.
pub open spec fn mostly_matches(q: Seq<char>, key: Seq<char>) -> bool {
    let both = q.len() + key.len();
    &&& both <= u64::MAX
    &&& both > 0 ==> 200 * crate::similarity::matches_between(q, key) >= 45 * both
}

proof fn lemma_alike(q: Seq<char>, key: Seq<char>)
    ensures
        is_like(q, key) == mostly_matches(q, key),
        is_like(q, key) ==> ratio_between(q, key).of > 0,
        is_like(q, key) && q.len() + key.len() > 0 ==> ratio_between(q, key).count == 2
            * crate::similarity::matches_between(q, key) && ratio_between(q, key).of == q.len()
            + key.len(),
{
    if q.len() + key.len() <= u64::MAX {
        let n = crate::similarity::matches_between(q, key);
        crate::similarity::lemma_matching_bound(
            q,
            key,
            (0, q.len() as int),
            (0, key.len() as int),
        );
    }
}

/// The similar titles are those that match for forty-five in a hundred, at most twenty of
/// them and all where they are fewer, each once, the greater share first.
pub proof fn law_similar_titles_are_the_closest(keys: Seq<Seq<char>>, q: Seq<char>, i: int, j: int)
    requires
        q.len() > 0,
        0 <= i < keys.len(),
        0 <= j < most_like(keys, q).len(),
    ensures
        ({
            let pool = most_like(keys, q);
            let share = |key: Seq<char>| crate::similarity::matches_between(q, key) as int;
            &&& pool.len() <= 20
            &&& 0 <= pool[j] < keys.len()
            &&& mostly_matches(q, keys[pool[j]])
            &&& mostly_matches(q, keys[i]) && !pool.contains(i) ==> pool.len() == 20 && share(
                keys[pool[j]],
            ) * (q.len() + keys[i].len()) >= share(keys[i]) * (q.len() + keys[pool[j]].len())
            &&& forall|k: int|
                0 <= k < j ==> #[trigger] pool[k] != pool[j] && share(keys[pool[k]]) * (q.len()
                    + keys[pool[j]].len()) >= share(keys[pool[j]]) * (q.len() + keys[pool[k]].len())
        }),
{
    let idxs = like_upto(keys, q, keys.len() as int);
    lemma_like_upto(keys, q, keys.len() as int);
    let rs = shares(keys, q, idxs);
    assert forall|k: int| 0 <= k < rs.len() implies (#[trigger] rs[k]).of > 0 by {
        lemma_alike(q, keys[idxs[k]]);
    }
    crate::similarity::lemma_ratios_compare(rs);
    let le = by_ratios(rs);
    law_order_exists(idxs.len(), le);
    let p = stable_order(idxs.len(), le);
    let sorted = arranged(idxs, p);
    let pool = most_like(keys, q);
    assert(pool[j] == idxs[p[j]]);
    lemma_alike(q, keys[pool[j]]);
    assert forall|k: int| 0 <= k < j implies #[trigger] pool[k] != pool[j]
        && crate::similarity::matches_between(q, keys[pool[k]]) * (q.len() + keys[pool[j]].len())
        >= crate::similarity::matches_between(q, keys[pool[j]]) * (q.len() + keys[pool[k]].len()) by {
        assert(pool[k] == idxs[p[k]]);
        assert(before(le, p[k], p[j]));
        assert(p[k] != p[j]);
        if p[k] < p[j] {
            assert(idxs[p[k]] < idxs[p[j]]);
        } else {
            assert(idxs[p[j]] < idxs[p[k]]);
        }
        lemma_alike(q, keys[pool[k]]);
        lemma_halved(
            crate::similarity::matches_between(q, keys[pool[k]]) as int,
            q.len() + keys[pool[j]].len() as int,
            crate::similarity::matches_between(q, keys[pool[j]]) as int,
            q.len() + keys[pool[k]].len() as int,
        );
    }
    lemma_alike(q, keys[i]);
    if mostly_matches(q, keys[i]) && !pool.contains(i) {
        assert(idxs.contains(i));
        let at = choose|at: int| 0 <= at < idxs.len() && idxs[at] == i;
        assert(p.contains(at));
        let k = choose|k: int| 0 <= k < p.len() && p[k] == at;
        assert(sorted[k] == i);
        if k < pool.len() {
            assert(pool[k] == i);
        }
        assert(before(le, p[j], p[k]));
        lemma_halved(
            crate::similarity::matches_between(q, keys[pool[j]]) as int,
            q.len() + keys[i].len() as int,
            crate::similarity::matches_between(q, keys[i]) as int,
            q.len() + keys[pool[j]].len() as int,
        );
    }
}

proof fn lemma_halved(a: int, b: int, c: int, d: int)
    requires
        (2 * a) * b >= (2 * c) * d,
    ensures
        a * b >= c * d,
{
    assert(a * b >= c * d) by (nonlinear_arith)
        requires
            (2 * a) * b >= (2 * c) * d,
    ;
}

/// A query that is not strict and has no exact match is settled with the game of the only
/// similar title, or leaves the choice between several, in their order.
pub proof fn law_similar_titles_are_offered(os: Seq<Offer>, keys: Seq<Seq<char>>, q: Seq<char>)
    requires
        keys.len() == os.len(),
        q.len() > 0,
        forall|i: int| 0 <= i < keys.len() ==> #[trigger] keys[i] != q,
    ensures
        match resolved(os, keys, q, false) {
            Resolved::Choose(found) => {
                &&& 2 <= found.len() <= 20
                &&& found.len() == most_like(keys, q).len()
                &&& forall|k: int| 0 <= k < found.len() ==> #[trigger] found[k] == os[most_like(keys, q)[k]]
            },
            Resolved::Settled(found) => {
                &&& most_like(keys, q).len() <= 1
                &&& found.len() == 0 <==> most_like(keys, q).len() == 0
                &&& forall|k: int|
                    0 <= k < found.len() ==> exists|j: int|
                        0 <= j < os.len() && os[j] == #[trigger] found[k] && #[trigger] keys[j]
                            == keys[most_like(keys, q)[0]]
            },
        },
{
    let at = exact_upto(keys, q, keys.len() as int);
    lemma_exact_upto(keys, q, keys.len() as int);
    if at.len() > 0 {
        assert(keys[at[0]] == q);
    }
    assert(exact_offers(os, keys, q).len() == at.len());
    let pool = most_like(keys, q);
    if pool.len() > 0 {
        if keys.len() == 0 {
            assert(like_upto(keys, q, 0).len() == 0);
            lemma_empty_pool(keys, q);
        }
        law_similar_titles_are_the_closest(keys, q, 0, 0);
        if pool.len() == 1 {
            lemma_release_with_key(os, keys, keys[pool[0]], pool[0]);
        }
    }
}

proof fn lemma_empty_pool(keys: Seq<Seq<char>>, q: Seq<char>)
    requires
        keys.len() == 0,
    ensures
        most_like(keys, q).len() == 0,
{
    let idxs = like_upto(keys, q, 0);
    let rs = shares(keys, q, idxs);
    crate::similarity::lemma_ratios_compare(rs);
    law_order_exists(idxs.len(), by_ratios(rs));
}

// ---- several sources in turn ------------------------------------------------------------------------------------

/// Of two releases that are offered in turn to a strict query, one that is not complete never
/// replaces one with as many disks, one with more disks replaces one with fewer, and one that
/// has all the disks that its titles speak of ends the search. Any release ends one that is
/// not strict, and no offer at all changes nothing.
pub proof fn law_sources_are_weighed(c: Choice, r: Seq<Offer>)
    ensures
        ({
            let (next, done) = c.offered(r);
            let disks = got(titles_of(r)) as int;
            let all = wanted(titles_of(r)) as int;
            &&& r.len() == 0 ==> next == c && !done
            &&& r.len() > 0 && !c.strict ==> next.best == r && done
            &&& r.len() > 0 && c.strict ==> done == (all <= disks)
            &&& r.len() > 0 && c.strict && disks > c.best_cov ==> next.best == r && next.best_cov
                == disks
            &&& r.len() > 0 && c.strict && !done && disks <= c.best_cov ==> next == c
            &&& done ==> next.best == r
            &&& next.strict == c.strict
        }),
{
}

// ---- what is owned -------------------------------------------------------------------------------------------------

/// What is missing are the titles of the ranked list, in its order, that no line of the index
/// has as a game on disk.
pub proof fn law_missing_titles_are_not_owned(
    index: Seq<Seq<Seq<char>>>,
    ranked: Seq<Seq<Seq<char>>>,
    i: int,
)
    requires
        0 <= i < ranked.len(),
        ranked[i].len() == 4,
    ensures
        ({
            let owned = exists|k: int|
                0 <= k < index.len() && (#[trigger] index[k]).len() >= 5 && index[k][1] == "local"@
                    && index[k][3] == ranked[i][3];
            let before = not_owned(ranked.take(i), owned_titles(index));
            let after = not_owned(ranked.take(i + 1), owned_titles(index));
            after == if owned {
                before
            } else {
                before.push(before_pattern(ranked[i][3], Pattern::Subtitle))
            }
        }),
{
    assert(ranked.take(i + 1).drop_last() =~= ranked.take(i));
    assert(ranked.take(i + 1).last() == ranked[i]);
    lemma_owned_titles(index, ranked[i][3]);
}

proof fn lemma_owned_titles(rs: Seq<Seq<Seq<char>>>, t: Seq<char>)
    ensures
        owned_titles(rs).contains(t) <==> exists|k: int|
            0 <= k < rs.len() && (#[trigger] rs[k]).len() >= 5 && rs[k][1] == "local"@ && rs[k][3]
                == t,
    decreases rs.len(),
{
    if rs.len() > 0 {
        let init = rs.drop_last();
        lemma_owned_titles(init, t);
        let before = owned_titles(init);
        let all = owned_titles(rs);
        let f = rs.last();
        let found = f.len() >= 5 && f[1] == "local"@ && f[3] == t;
        if before.contains(t) {
            let k = choose|k: int| 0 <= k < before.len() && before[k] == t;
            assert(all[k] == t);
            let n = choose|n: int|
                0 <= n < init.len() && (#[trigger] init[n]).len() >= 5 && init[n][1] == "local"@
                    && init[n][3] == t;
            assert(rs[n] == init[n]);
        } else if found {
            assert(all[all.len() - 1] == t);
            assert(rs[rs.len() - 1] == f);
        } else {
            if all.contains(t) {
                let k = choose|k: int| 0 <= k < all.len() && all[k] == t;
                if k < before.len() {
                    assert(before[k] == t);
                }
            }
            assert forall|k: int|
                0 <= k < rs.len() && (#[trigger] rs[k]).len() >= 5 && rs[k][1] == "local"@ implies rs[k][3]
                != t by {
                if k < init.len() {
                    assert(init[k] == rs[k]);
                }
            }
        }
    }
}

} // verus!
