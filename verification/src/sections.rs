//! The sections of the game browser: curated ones in front, then the genres, the
//! most downloaded first.

use crate::catalogue::{canon_of, games, genre_other, genres, group_by_genre, Game, Row};
use crate::grouping::{
    first_seen, group, group_view, grouped, groups_view, law_groups_partition, lemma_places,
    places,
};
use crate::order::{
    before, by_pairs, ints, is_order, law_order_exists, lemma_pairs_compare, order_by_pairs,
    pair_le, stable_order,
};
use crate::table::{fields_view, records, records_of};
use crate::text::{same, texts};
use crate::titles::{game_title, game_title_of};
use vstd::prelude::*;

verus! {

/// A section: its name and the rows in it.
pub type Section = (Seq<char>, Seq<int>);

/// A list in the given order.
pub open spec fn arranged<T>(s: Seq<T>, p: Seq<int>) -> Seq<T> {
    Seq::new(p.len(), |i: int| s[p[i]])
}

/// A sorting key that puts the greater count first.
pub open spec fn descending(n: i64) -> (i64, i64) {
    ((-1 - n) as i64, 0)
}

pub open spec fn download_keys(gs: Seq<Game>, idxs: Seq<int>) -> Seq<(i64, i64)> {
    idxs.map_values(|i: int| descending(gs[i].downloads))
}

/// Rows sorted by downloads, the most downloaded first.
pub open spec fn by_downloads(gs: Seq<Game>, idxs: Seq<int>) -> Seq<int> {
    arranged(idxs, stable_order(idxs.len(), by_pairs(download_keys(gs, idxs))))
}

/// The downloads of the first row of a section; zero when it is empty.
pub open spec fn top_downloads(gs: Seq<Game>, s: Section) -> i64 {
    if s.1.len() > 0 {
        gs[s.1[0]].downloads
    } else {
        0
    }
}

/// The sections with their rows sorted.
pub open spec fn each_sorted(gs: Seq<Game>, ss: Seq<Section>) -> Seq<Section> {
    ss.map_values(|s: Section| (s.0, by_downloads(gs, s.1)))
}

/// Sections sorted by their most downloaded game.
pub open spec fn by_top(gs: Seq<Game>, ss: Seq<Section>) -> Seq<Section> {
    let keys = ss.map_values(|s: Section| descending(top_downloads(gs, s)));
    arranged(ss, stable_order(ss.len(), by_pairs(keys)))
}

/// Where a genre is pinned: "Arcade" and "Shoot'em Up" in front, "Other" last.
pub open spec fn pin(name: Seq<char>) -> i64 {
    if name == "Arcade"@ {
        0
    } else if name == "Shoot'em Up"@ {
        1
    } else if name == "Other"@ {
        3
    } else {
        2
    }
}

/// Sections with the pinned ones in their places.
pub open spec fn pinned(ss: Seq<Section>) -> Seq<Section> {
    let keys = ss.map_values(|s: Section| (pin(s.0), 0i64));
    arranged(ss, stable_order(ss.len(), by_pairs(keys)))
}

/// The sections of the genres.
pub open spec fn genre_sections(gs: Seq<Game>) -> Seq<Section> {
    pinned(by_top(gs, each_sorted(gs, grouped(genres(gs)))))
}

/// The last row with a display text.
pub open spec fn last_shown(gs: Seq<Game>, display: Seq<char>, n: int) -> Option<int>
    decreases n,
{
    if n <= 0 {
        None
    } else if gs[n - 1].display == display {
        Some(n - 1)
    } else {
        last_shown(gs, display, n - 1)
    }
}

/// The rows of what was played, in the order of the plays.
pub open spec fn latest_rows(gs: Seq<Game>, recent: Seq<Seq<char>>) -> Seq<int>
    decreases recent.len(),
{
    if recent.len() == 0 {
        Seq::empty()
    } else {
        let init = latest_rows(gs, recent.drop_last());
        match last_shown(gs, recent.last(), gs.len() as int) {
            Some(i) => init.push(i),
            None => init,
        }
    }
}

/// The first `n` rows whose key is among `wanted`.
pub open spec fn rows_among(canons: Seq<Seq<char>>, wanted: Seq<Seq<char>>, n: int) -> Seq<int>
    decreases n,
{
    if n <= 0 {
        Seq::empty()
    } else if wanted.contains(canons[n - 1]) {
        rows_among(canons, wanted, n - 1).push(n - 1)
    } else {
        rows_among(canons, wanted, n - 1)
    }
}

/// The rows whose key is among `wanted`, the most downloaded first.
pub open spec fn members(gs: Seq<Game>, canons: Seq<Seq<char>>, wanted: Seq<Seq<char>>) -> Seq<int> {
    by_downloads(gs, rows_among(canons, wanted, canons.len() as int))
}

/// A section in a list, where it is not empty.
pub open spec fn if_any(name: Seq<char>, idxs: Seq<int>) -> Seq<Section> {
    if idxs.len() > 0 {
        seq![(name, idxs)]
    } else {
        Seq::empty()
    }
}

/// The collections that have rows.
pub open spec fn collection_sections(
    gs: Seq<Game>,
    canons: Seq<Seq<char>>,
    collections: Seq<(Seq<char>, Seq<Seq<char>>)>,
) -> Seq<Section>
    decreases collections.len(),
{
    if collections.len() == 0 {
        Seq::empty()
    } else {
        let c = collections.last();
        collection_sections(gs, canons, collections.drop_last()) + if_any(
            c.0,
            members(gs, canons, c.1),
        )
    }
}

/// The sections of the browser: what was played latest, the classics, the named
/// collections, and then the genres. Curated sections without a row are left out.
pub open spec fn all_sections(
    gs: Seq<Game>,
    canons: Seq<Seq<char>>,
    recent: Seq<Seq<char>>,
    classics: Seq<Seq<char>>,
    collections: Seq<(Seq<char>, Seq<Seq<char>>)>,
) -> Seq<Section> {
    if_any("latest played"@, latest_rows(gs, recent)) + if_any(
        "classics"@,
        members(gs, canons, classics),
    ) + collection_sections(gs, canons, collections) + genre_sections(gs)
}

// ---- sorting -------------------------------------------------------------------------------

fn downloads_key(n: i64) -> (k: (i64, i64))
    ensures
        k == descending(n),
{
    (-1 - n, 0)
}

pub proof fn lemma_order_below(n: nat, keys: Seq<(i64, i64)>)
    requires
        keys.len() == n,
    ensures
        is_order(n, by_pairs(keys), stable_order(n, by_pairs(keys))),
{
    lemma_pairs_compare(keys);
    law_order_exists(n, by_pairs(keys));
}

/// Sorts rows by downloads.
pub fn sort_by_downloads(rows: &[Row], idxs: &Vec<usize>) -> (r: Vec<usize>)
    requires
        forall|k: int| 0 <= k < idxs@.len() ==> #[trigger] idxs@[k] < rows@.len(),
    ensures
        ints(r@) == by_downloads(games(rows@), ints(idxs@)),
        forall|k: int| 0 <= k < r@.len() ==> #[trigger] r@[k] < rows@.len(),
{
    let mut keys: Vec<(i64, i64)> = Vec::new();
    let mut i: usize = 0;
    while i < idxs.len()
        invariant
            forall|k: int| 0 <= k < idxs@.len() ==> #[trigger] idxs@[k] < rows@.len(),
            i <= idxs@.len(),
            keys@.len() == i,
            forall|k: int|
                0 <= k < i ==> #[trigger] keys@[k] == download_keys(games(rows@), ints(idxs@))[k],
        decreases idxs@.len() - i,
    {
        let row = idxs[i];
        keys.push(downloads_key(rows[row].downloads));
        i += 1;
    }
    assert(keys@ =~= download_keys(games(rows@), ints(idxs@)));
    let p = order_by_pairs(&keys);
    pick(idxs, &p)
}

/// A list of rows in the given order.
pub fn pick(idxs: &Vec<usize>, p: &Vec<usize>) -> (r: Vec<usize>)
    requires
        forall|k: int| 0 <= k < ints(p@).len() ==> 0 <= #[trigger] ints(p@)[k] < idxs@.len(),
    ensures
        ints(r@) == arranged(ints(idxs@), ints(p@)),
        r@.len() == p@.len(),
        forall|k: int| 0 <= k < r@.len() ==> #[trigger] r@[k] == idxs@[ints(p@)[k]],
{
    let mut r: Vec<usize> = Vec::new();
    let mut i: usize = 0;
    while i < p.len()
        invariant
            forall|k: int| 0 <= k < ints(p@).len() ==> 0 <= #[trigger] ints(p@)[k] < idxs@.len(),
            i <= p@.len(),
            r@.len() == i,
            forall|k: int| 0 <= k < i ==> #[trigger] r@[k] == idxs@[p@[k] as int],
            forall|k: int| 0 <= k < i ==> 0 <= #[trigger] p@[k] < idxs@.len(),
        decreases p@.len() - i,
    {
        assert(ints(p@)[i as int] == p@[i as int]);
        r.push(idxs[p[i]]);
        i += 1;
    }
    assert(ints(r@) =~= arranged(ints(idxs@), ints(p@)));
    r
}

/// Takes sections out of a list in the given order.
pub fn pick_sections(ss: &Vec<(String, Vec<usize>)>, p: &Vec<usize>) -> (r: Vec<(String, Vec<usize>)>)
    requires
        forall|k: int| 0 <= k < ints(p@).len() ==> 0 <= #[trigger] ints(p@)[k] < ss@.len(),
    ensures
        groups_view(r@) == arranged(groups_view(ss@), ints(p@)),
{
    let mut r: Vec<(String, Vec<usize>)> = Vec::new();
    let mut i: usize = 0;
    while i < p.len()
        invariant
            forall|k: int| 0 <= k < ints(p@).len() ==> 0 <= #[trigger] ints(p@)[k] < ss@.len(),
            i <= p@.len(),
            r@.len() == i,
            forall|k: int| 0 <= k < i ==> 0 <= #[trigger] p@[k] < ss@.len(),
            forall|k: int|
                0 <= k < i ==> group_view(#[trigger] r@[k]) == group_view(ss@[p@[k] as int]),
        decreases p@.len() - i,
    {
        assert(ints(p@)[i as int] == p@[i as int]);
        let s = &ss[p[i]];
        let copy = copy_rows(&s.1);
        r.push((s.0.clone(), copy));
        i += 1;
    }
    assert(groups_view(r@) =~= arranged(groups_view(ss@), ints(p@)));
    r
}

fn copy_rows(v: &Vec<usize>) -> (r: Vec<usize>)
    ensures
        r@ == v@,
{
    let mut r: Vec<usize> = Vec::new();
    let mut i: usize = 0;
    while i < v.len()
        invariant
            i <= v@.len(),
            r@ == v@.take(i as int),
        decreases v@.len() - i,
    {
        r.push(v[i]);
        i += 1;
        assert(v@.take(i as int) =~= v@.take(i - 1).push(v@[i - 1]));
    }
    assert(v@.take(i as int) =~= v@);
    r
}

/// All rows of all sections are rows of a list of this length.
spec fn rows_below(ss: Seq<(String, Vec<usize>)>, n: nat) -> bool {
    forall|s: int, k: int|
        0 <= s < ss.len() && 0 <= k < ss[s].1@.len() ==> (#[trigger] ss[s].1@[k]) < n
}

proof fn lemma_grouped_below(gs: Seq<Game>, ss: Seq<(String, Vec<usize>)>)
    requires
        groups_view(ss) == grouped(genres(gs)),
    ensures
        rows_below(ss, gs.len()),
{
    let keys = genres(gs);
    assert forall|s: int, k: int| 0 <= s < ss.len() && 0 <= k < ss[s].1@.len() implies (
    #[trigger] ss[s].1@[k]) < gs.len() by {
        assert(groups_view(ss).len() == ss.len());
        assert(groups_view(ss)[s] == grouped(keys)[s]);
        let at = places(keys, first_seen(keys)[s]);
        lemma_places(keys, first_seen(keys)[s]);
        assert(group_view(ss[s]).1 == at);
        assert(group_view(ss[s]).1.len() == ss[s].1@.len());
        assert(at[k] == ss[s].1@[k]);
    }
}

/// The rows of the genres of a list are rows of that list.
pub proof fn lemma_grouped_rows(gs: Seq<Game>, ss: Seq<(String, Vec<usize>)>)
    requires
        groups_view(ss) == grouped(genres(gs)),
    ensures
        forall|s: int, k: int|
            0 <= s < ss.len() && 0 <= k < ss[s].1@.len() ==> (#[trigger] ss[s].1@[k]) < gs.len(),
{
    lemma_grouped_below(gs, ss);
}

fn pin_of(name: &str) -> (r: i64)
    ensures
        r == pin(name@),
{
    if same(name, "Arcade") {
        0
    } else if same(name, "Shoot'em Up") {
        1
    } else if same(name, genre_other()) {
        3
    } else {
        2
    }
}

/// The sections of the genres: each sorted by downloads, then by their most
/// downloaded game, with the pinned ones in their places.
pub fn sections_of_genres(rows: &[Row]) -> (r: Vec<(String, Vec<usize>)>)
    ensures
        groups_view(r@) == genre_sections(games(rows@)),
{
    let ghost gs = games(rows@);
    let groups = group_by_genre(rows);
    proof {
        lemma_grouped_below(gs, groups@);
        assert(groups_view(groups@).len() == groups@.len());
    }
    // Each genre sorted within.
    let mut sorted: Vec<(String, Vec<usize>)> = Vec::new();
    let mut tops: Vec<(i64, i64)> = Vec::new();
    let ghost each = each_sorted(gs, grouped(genres(gs)));
    let ghost top_keys = each.map_values(|s: Section| descending(top_downloads(gs, s)));
    let mut i: usize = 0;
    while i < groups.len()
        invariant
            gs == games(rows@),
            groups_view(groups@) == grouped(genres(gs)),
            groups@.len() == grouped(genres(gs)).len(),
            rows_below(groups@, gs.len()),
            each == each_sorted(gs, grouped(genres(gs))),
            top_keys == each.map_values(|s: Section| descending(top_downloads(gs, s))),
            i <= groups@.len(),
            sorted@.len() == i,
            tops@.len() == i,
            forall|k: int| 0 <= k < i ==> group_view(#[trigger] sorted@[k]) == each[k],
            forall|k: int| 0 <= k < i ==> #[trigger] tops@[k] == top_keys[k],
        decreases groups@.len() - i,
    {
        proof {
            assert(groups_view(groups@)[i as int] == grouped(genres(gs))[i as int]);
            assert forall|k: int| 0 <= k < groups@[i as int].1@.len() implies (
            #[trigger] groups@[i as int].1@[k]) < rows@.len() by {}
        }
        let idxs = sort_by_downloads(rows, &groups[i].1);
        assert(ints(idxs@) == each[i as int].1);
        assert(ints(idxs@).len() == idxs@.len());
        let top: i64 = if idxs.len() > 0 {
            assert(ints(idxs@)[0] == idxs@[0]);
            rows[idxs[0]].downloads
        } else {
            0
        };
        tops.push(downloads_key(top));
        sorted.push((groups[i].0.clone(), idxs));
        i += 1;
    }
    proof {
        assert(groups_view(sorted@) =~= each);
        assert(tops@ =~= top_keys);
        lemma_order_below(tops@.len(), tops@);
    }
    let p = order_by_pairs(&tops);
    let ranked = pick_sections(&sorted, &p);
    let ghost top = by_top(gs, each);
    assert(groups_view(ranked@) =~= top);
    assert(groups_view(ranked@).len() == ranked@.len());
    // The pinned ones in their places.
    let mut pins: Vec<(i64, i64)> = Vec::new();
    let ghost pin_keys = top.map_values(|s: Section| (pin(s.0), 0i64));
    let mut j: usize = 0;
    while j < ranked.len()
        invariant
            groups_view(ranked@) == top,
            ranked@.len() == top.len(),
            pin_keys == top.map_values(|s: Section| (pin(s.0), 0i64)),
            j <= ranked@.len(),
            pins@.len() == j,
            forall|k: int| 0 <= k < j ==> #[trigger] pins@[k] == pin_keys[k],
        decreases ranked@.len() - j,
    {
        assert(groups_view(ranked@)[j as int] == top[j as int]);
        pins.push((pin_of(ranked[j].0.as_str()), 0));
        j += 1;
    }
    assert(pins@ =~= pin_keys);
    let q = order_by_pairs(&pins);
    let r = pick_sections(&ranked, &q);
    assert(groups_view(r@) =~= pinned(top));
    r
}

fn find_shown(rows: &[Row], display: &str) -> (r: Option<usize>)
    ensures
        match r {
            Some(i) => last_shown(games(rows@), display@, rows@.len() as int) == Some(i as int) && i
                < rows@.len(),
            None => last_shown(games(rows@), display@, rows@.len() as int) is None,
        },
{
    let mut n: usize = rows.len();
    while n > 0
        invariant
            n <= rows@.len(),
            last_shown(games(rows@), display@, rows@.len() as int) == last_shown(
                games(rows@),
                display@,
                n as int,
            ),
        decreases n,
    {
        n -= 1;
        assert(games(rows@)[n as int] == rows@[n as int]@);
        if same(rows[n].display.as_str(), display) {
            return Some(n);
        }
    }
    None
}

/// The rows of what was played.
pub fn find_latest(rows: &[Row], recent: &Vec<String>) -> (r: Vec<usize>)
    ensures
        ints(r@) == latest_rows(games(rows@), texts(recent@)),
{
    let mut r: Vec<usize> = Vec::new();
    let ghost gs = games(rows@);
    let ghost all = texts(recent@);
    let mut i: usize = 0;
    assert(ints(r@) =~= latest_rows(gs, all.take(0)));
    while i < recent.len()
        invariant
            gs == games(rows@),
            all == texts(recent@),
            i <= recent@.len(),
            ints(r@) == latest_rows(gs, all.take(i as int)),
        decreases recent@.len() - i,
    {
        proof {
            assert(all.take(i + 1).drop_last() =~= all.take(i as int));
            assert(all[i as int] == recent@[i as int]@);
            assert(gs.len() == rows@.len());
        }
        match find_shown(rows, recent[i].as_str()) {
            Some(n) => {
                assert(ints(r@.push(n)) =~= ints(r@).push(n as int));
                r.push(n);
            },
            None => {},
        }
        i += 1;
    }
    assert(all.take(i as int) =~= all);
    r
}

fn is_among(wanted: &Vec<String>, key: &str) -> (r: bool)
    ensures
        r == texts(wanted@).contains(key@),
{
    let mut i: usize = 0;
    while i < wanted.len()
        invariant
            i <= wanted@.len(),
            forall|k: int| 0 <= k < i ==> texts(wanted@)[k] != key@,
        decreases wanted@.len() - i,
    {
        assert(texts(wanted@)[i as int] == wanted@[i as int]@);
        if same(wanted[i].as_str(), key) {
            return true;
        }
        i += 1;
    }
    assert(texts(wanted@).len() == wanted@.len());
    false
}

/// The rows whose key is among `wanted`, the most downloaded first.
pub fn find_members(rows: &[Row], canons: &Vec<String>, wanted: &Vec<String>) -> (r: Vec<usize>)
    requires
        canons@.len() == rows@.len(),
    ensures
        ints(r@) == members(games(rows@), texts(canons@), texts(wanted@)),
{
    let ghost cs = texts(canons@);
    let ghost ws = texts(wanted@);
    let mut idxs: Vec<usize> = Vec::new();
    let mut n: usize = 0;
    assert(ints(idxs@) =~= rows_among(cs, ws, 0));
    while n < canons.len()
        invariant
            cs == texts(canons@),
            ws == texts(wanted@),
            canons@.len() == rows@.len(),
            n <= canons@.len(),
            ints(idxs@) == rows_among(cs, ws, n as int),
            forall|k: int| 0 <= k < idxs@.len() ==> #[trigger] idxs@[k] < rows@.len(),
        decreases canons@.len() - n,
    {
        assert(cs[n as int] == canons@[n as int]@);
        if is_among(wanted, canons[n].as_str()) {
            assert(ints(idxs@.push(n)) =~= ints(idxs@).push(n as int));
            idxs.push(n);
        }
        n += 1;
    }
    assert(cs.len() == canons@.len());
    sort_by_downloads(rows, &idxs)
}

/// The texts of named collections.
pub open spec fn collections_view(v: Seq<(String, Vec<String>)>) -> Seq<(Seq<char>, Seq<Seq<char>>)> {
    v.map_values(|c: (String, Vec<String>)| (c.0@, texts(c.1@)))
}

/// The records that name a collection and a title.
pub open spec fn named_titles(rs: Seq<Seq<Seq<char>>>) -> Seq<Seq<Seq<char>>>
    decreases rs.len(),
{
    if rs.len() == 0 {
        Seq::empty()
    } else if rs.last().len() < 2 {
        named_titles(rs.drop_last())
    } else {
        named_titles(rs.drop_last()).push(rs.last())
    }
}

/// The collections of records, in the order in which they are first named, each with the
/// keys of its titles.
pub open spec fn collected(rs: Seq<Seq<Seq<char>>>) -> Seq<(Seq<char>, Seq<Seq<char>>)> {
    grouped(rs.map_values(|r: Seq<Seq<char>>| r[0])).map_values(
        |g: (Seq<char>, Seq<int>)| (g.0, g.1.map_values(|i: int| game_title_of(rs[i][1]))),
    )
}

/// Reads the named collections: each line is a collection's name and a title, with a tab
/// between them.
pub fn collections(text: &str) -> (r: Vec<(String, Vec<String>)>)
    ensures
        collections_view(r@) == collected(named_titles(records_of(text@))),
{
    let rs = records(text);
    let ghost all = fields_view(rs@);
    let ghost kept = named_titles(all);
    let mut names: Vec<String> = Vec::new();
    let mut keys: Vec<String> = Vec::new();
    let ghost name_of = |r: Seq<Seq<char>>| r[0];
    let ghost key_of = |r: Seq<Seq<char>>| game_title_of(r[1]);
    let mut i: usize = 0;
    assert(all.take(0) =~= Seq::empty());
    assert(texts(names@) =~= named_titles(all.take(0)).map_values(name_of));
    assert(texts(keys@) =~= named_titles(all.take(0)).map_values(key_of));
    while i < rs.len()
        invariant
            all == fields_view(rs@),
            name_of == (|r: Seq<Seq<char>>| r[0]),
            key_of == (|r: Seq<Seq<char>>| game_title_of(r[1])),
            i <= rs@.len(),
            texts(names@) == named_titles(all.take(i as int)).map_values(name_of),
            texts(keys@) == named_titles(all.take(i as int)).map_values(key_of),
        decreases rs@.len() - i,
    {
        let f = &rs[i];
        let ghost before = named_titles(all.take(i as int));
        proof {
            assert(all.take(i + 1).drop_last() =~= all.take(i as int));
            assert(all[i as int] == texts(rs@[i as int]@));
        }
        if f.len() >= 2 {
            let name = f[0].clone();
            let key = game_title(f[1].as_str());
            proof {
                let now = before.push(all[i as int]);
                assert(texts(names@.push(name)) =~= texts(names@).push(name@));
                assert(texts(keys@.push(key)) =~= texts(keys@).push(key@));
                assert(now.map_values(name_of) =~= before.map_values(name_of).push(name@));
                assert(now.map_values(key_of) =~= before.map_values(key_of).push(key@));
            }
            names.push(name);
            keys.push(key);
        }
        i += 1;
    }
    assert(all.take(i as int) =~= all);
    let groups = group(&names);
    let ghost gs = grouped(kept.map_values(name_of));
    assert(texts(keys@).len() == kept.len());
    let mut r: Vec<(String, Vec<String>)> = Vec::new();
    let mut n: usize = 0;
    while n < groups.len()
        invariant
            gs == grouped(kept.map_values(name_of)),
            name_of == (|r: Seq<Seq<char>>| r[0]),
            key_of == (|r: Seq<Seq<char>>| game_title_of(r[1])),
            groups_view(groups@) == gs,
            texts(keys@) == kept.map_values(key_of),
            keys@.len() == kept.len(),
            n <= groups@.len(),
            r@.len() == n,
            forall|k: int|
                0 <= k < n ==> (#[trigger] r@[k]).0@ == gs[k].0 && texts(r@[k].1@)
                    == gs[k].1.map_values(|i: int| game_title_of(kept[i][1])),
        decreases groups@.len() - n,
    {
        let g = &groups[n];
        let ghost at = gs[n as int].1;
        proof {
            assert(groups_view(groups@)[n as int] == group_view(groups@[n as int]));
            let names = kept.map_values(name_of);
            let key = first_seen(names)[n as int];
            lemma_places(names, key);
            assert(groups_view(groups@).len() == groups@.len());
            assert(gs == grouped(names));
            assert(gs[n as int] == (key, places(names, key)));
            assert(at == places(names, key));
            assert(names.len() == keys@.len());
        }
        let mut titles: Vec<String> = Vec::new();
        let mut k: usize = 0;
        while k < g.1.len()
            invariant
                at == g.1@.map_values(|i: usize| i as int),
                forall|j: int| 0 <= j < at.len() ==> 0 <= #[trigger] at[j] < keys@.len(),
                texts(keys@) == kept.map_values(key_of),
                key_of == (|r: Seq<Seq<char>>| game_title_of(r[1])),
                keys@.len() == kept.len(),
                k <= g.1@.len(),
                titles@.len() == k,
                forall|j: int|
                    0 <= j < k ==> (#[trigger] titles@[j])@ == game_title_of(kept[at[j]][1]),
            decreases g.1@.len() - k,
        {
            assert(at[k as int] == g.1@[k as int] as int);
            assert(texts(keys@)[at[k as int]] == keys@[at[k as int]]@);
            titles.push(keys[g.1[k]].clone());
            k += 1;
        }
        assert(texts(titles@) =~= at.map_values(|i: int| game_title_of(kept[i][1])));
        r.push((g.0.clone(), titles));
        n += 1;
    }
    assert(collections_view(r@) =~= collected(kept));
    r
}

fn push_if_any(front: &mut Vec<(String, Vec<usize>)>, name: &str, idxs: Vec<usize>)
    ensures
        groups_view(final(front)@) == groups_view(old(front)@) + if_any(name@, ints(idxs@)),
{
    let ghost was = front@;
    assert(ints(idxs@).len() == idxs@.len());
    if idxs.len() > 0 {
        front.push((name.to_owned(), idxs));
        assert(groups_view(front@) =~= groups_view(was) + if_any(name@, ints(idxs@)));
    } else {
        assert(groups_view(front@) =~= groups_view(was) + if_any(name@, ints(idxs@)));
    }
}

/// The sections of the browser, when the keys of the rows are known.
pub fn sections_with(
    rows: &[Row],
    canons: &Vec<String>,
    recent: &Vec<String>,
    classics: &Vec<String>,
    collections: &Vec<(String, Vec<String>)>,
) -> (r: Vec<(String, Vec<usize>)>)
    requires
        canons@.len() == rows@.len(),
    ensures
        groups_view(r@) == all_sections(
            games(rows@),
            texts(canons@),
            texts(recent@),
            texts(classics@),
            collections_view(collections@),
        ),
{
    let ghost gs = games(rows@);
    let ghost cs = texts(canons@);
    let mut r: Vec<(String, Vec<usize>)> = Vec::new();
    assert(groups_view(r@) =~= Seq::empty());
    let latest = find_latest(rows, recent);
    push_if_any(&mut r, "latest played", latest);
    let classic = find_members(rows, canons, classics);
    push_if_any(&mut r, "classics", classic);
    let ghost front = groups_view(r@);
    let ghost all = collections_view(collections@);
    let mut i: usize = 0;
    assert(groups_view(r@) =~= front + collection_sections(gs, cs, all.take(0)));
    while i < collections.len()
        invariant
            gs == games(rows@),
            cs == texts(canons@),
            canons@.len() == rows@.len(),
            all == collections_view(collections@),
            i <= collections@.len(),
            groups_view(r@) == front + collection_sections(gs, cs, all.take(i as int)),
        decreases collections@.len() - i,
    {
        proof {
            assert(all.take(i + 1).drop_last() =~= all.take(i as int));
        }
        let idxs = find_members(rows, canons, &collections[i].1);
        push_if_any(&mut r, collections[i].0.as_str(), idxs);
        assert(groups_view(r@) =~= front + collection_sections(gs, cs, all.take(i + 1)));
        i += 1;
    }
    assert(all.take(i as int) =~= all);
    let mut genres = sections_of_genres(rows);
    let ghost before = r@;
    let ghost tail = genres@;
    r.append(&mut genres);
    assert(groups_view(r@) =~= groups_view(before) + groups_view(tail));
    assert(groups_view(r@) =~= all_sections(
        gs,
        cs,
        texts(recent@),
        texts(classics@),
        collections_view(collections@),
    ));
    r
}

/// The keys of the rows.
pub open spec fn canons_of(gs: Seq<Game>) -> Seq<Seq<char>> {
    gs.map_values(|g: Game| g.canon())
}

/// The sections of the browser.
pub fn sections(
    all: &[Row],
    recent: &Vec<String>,
    classics: &Vec<String>,
    collections: &Vec<(String, Vec<String>)>,
) -> (r: Vec<(String, Vec<usize>)>)
    ensures
        groups_view(r@) == all_sections(
            games(all@),
            canons_of(games(all@)),
            texts(recent@),
            texts(classics@),
            collections_view(collections@),
        ),
{
    let mut canons: Vec<String> = Vec::new();
    let mut i: usize = 0;
    while i < all.len()
        invariant
            i <= all@.len(),
            canons@.len() == i,
            forall|k: int| 0 <= k < i ==> (#[trigger] canons@[k])@ == canons_of(games(all@))[k],
        decreases all@.len() - i,
    {
        canons.push(canon_of(&all[i]));
        i += 1;
    }
    assert(texts(canons@) =~= canons_of(games(all@)));
    sections_with(all, &canons, recent, classics, collections)
}

// ---- laws ------------------------------------------------------------------------------------

/// Sorting by downloads leaves no later row with more of them.
pub proof fn law_downloads_descend(gs: Seq<Game>, idxs: Seq<int>, i: int, j: int)
    requires
        0 <= i < j < idxs.len(),
    ensures
        by_downloads(gs, idxs).len() == idxs.len(),
        gs[by_downloads(gs, idxs)[i]].downloads >= gs[by_downloads(gs, idxs)[j]].downloads,
{
    let keys = download_keys(gs, idxs);
    let le = by_pairs(keys);
    lemma_order_below(idxs.len(), keys);
    let p = stable_order(idxs.len(), le);
    assert(before(le, p[i], p[j]));
    assert(le(p[i], p[j]));
}

/// Sorting by downloads loses no row and adds none.
pub proof fn law_sorting_keeps_rows(gs: Seq<Game>, idxs: Seq<int>, row: int)
    ensures
        by_downloads(gs, idxs).contains(row) <==> idxs.contains(row),
{
    let keys = download_keys(gs, idxs);
    let le = by_pairs(keys);
    lemma_order_below(idxs.len(), keys);
    let p = stable_order(idxs.len(), le);
    let s = by_downloads(gs, idxs);
    if idxs.contains(row) {
        let k = choose|k: int| 0 <= k < idxs.len() && idxs[k] == row;
        assert(p.contains(k));
        let i = choose|i: int| 0 <= i < p.len() && p[i] == k;
        assert(s[i] == row);
    }
    if s.contains(row) {
        let i = choose|i: int| 0 <= i < s.len() && s[i] == row;
        assert(0 <= p[i] < idxs.len());
        assert(idxs[p[i]] == row);
    }
}

proof fn lemma_pinned_pos(ss: Seq<Section>, i: int, j: int)
    requires
        0 <= i < j < pinned(ss).len(),
    ensures
        pin(pinned(ss)[i].0) <= pin(pinned(ss)[j].0),
{
    let keys = ss.map_values(|s: Section| (pin(s.0), 0i64));
    let le = by_pairs(keys);
    lemma_order_below(ss.len(), keys);
    let p = stable_order(ss.len(), le);
    assert(before(le, p[i], p[j]));
    assert(le(p[i], p[j]));
    assert(pair_le(keys[p[i]], keys[p[j]]));
}

/// Among the genres "Arcade" comes first, then "Shoot'em Up", and "Other" last.
pub proof fn law_genres_are_pinned(gs: Seq<Game>, i: int, j: int)
    requires
        0 <= i < j < genre_sections(gs).len(),
    ensures
        genre_sections(gs)[j].0 != "Arcade"@ || genre_sections(gs)[i].0 == "Arcade"@,
        genre_sections(gs)[j].0 == "Shoot'em Up"@ ==> genre_sections(gs)[i].0 == "Arcade"@
            || genre_sections(gs)[i].0 == "Shoot'em Up"@,
        genre_sections(gs)[i].0 == "Other"@ ==> genre_sections(gs)[j].0 == "Other"@,
{
    lemma_pinned_pos(by_top(gs, each_sorted(gs, grouped(genres(gs)))), i, j);
    reveal_strlit("Arcade");
    reveal_strlit("Shoot'em Up");
    reveal_strlit("Other");
}

/// Every row is in the section of its genre.
pub proof fn law_every_row_has_its_genre(gs: Seq<Game>, n: int)
    requires
        0 <= n < gs.len(),
    ensures
        exists|s: int|
            0 <= s < genre_sections(gs).len() && (#[trigger] genre_sections(gs)[s]).0
                == gs[n].genre_name() && genre_sections(gs)[s].1.contains(n),
{
    let keys = genres(gs);
    law_groups_partition(keys, n);
    let g = choose|g: int|
        0 <= g < grouped(keys).len() && (#[trigger] grouped(keys)[g]).0 == keys[n] && grouped(
            keys,
        )[g].1.contains(n);
    let each = each_sorted(gs, grouped(keys));
    law_sorting_keeps_rows(gs, grouped(keys)[g].1, n);
    assert(each[g].0 == gs[n].genre_name() && each[g].1.contains(n));
    let top_keys = each.map_values(|s: Section| descending(top_downloads(gs, s)));
    lemma_order_below(each.len(), top_keys);
    let p = stable_order(each.len(), by_pairs(top_keys));
    assert(p.contains(g));
    let t = choose|t: int| 0 <= t < p.len() && p[t] == g;
    let top = by_top(gs, each);
    assert(top[t] == each[g]);
    let pin_keys = top.map_values(|s: Section| (pin(s.0), 0i64));
    lemma_order_below(top.len(), pin_keys);
    let q = stable_order(top.len(), by_pairs(pin_keys));
    assert(q.contains(t));
    let s = choose|s: int| 0 <= s < q.len() && q[s] == t;
    assert(genre_sections(gs)[s] == top[t]);
}

// ---- what is in the sections, and in which order -----------------------------------------------------------------------

proof fn lemma_pinned_place(ss: Seq<Section>, i: int, j: int)
    requires
        0 <= i < j < ss.len(),
    ensures
        pinned(ss).len() == ss.len(),
        ({
            let keys = ss.map_values(|s: Section| (pin(s.0), 0i64));
            let p = stable_order(ss.len(), by_pairs(keys));
            &&& 0 <= p[i] < ss.len() && 0 <= p[j] < ss.len()
            &&& pinned(ss)[i] == ss[p[i]] && pinned(ss)[j] == ss[p[j]]
            &&& pin(ss[p[i]].0) <= pin(ss[p[j]].0)
            &&& pin(ss[p[i]].0) == pin(ss[p[j]].0) ==> p[i] < p[j]
        }),
{
    let keys = ss.map_values(|s: Section| (pin(s.0), 0i64));
    lemma_pairs_compare(keys);
    let le = by_pairs(keys);
    law_order_exists(ss.len(), le);
    let p = stable_order(ss.len(), le);
    assert(before(le, p[i], p[j]));
}

proof fn lemma_by_top_place(gs: Seq<Game>, ss: Seq<Section>, a: int, b: int)
    requires
        0 <= a < b < ss.len(),
    ensures
        by_top(gs, ss).len() == ss.len(),
        top_downloads(gs, by_top(gs, ss)[a]) >= top_downloads(gs, by_top(gs, ss)[b]),
{
    let keys = ss.map_values(|s: Section| descending(top_downloads(gs, s)));
    lemma_pairs_compare(keys);
    let le = by_pairs(keys);
    law_order_exists(ss.len(), le);
    let p = stable_order(ss.len(), le);
    assert(before(le, p[a], p[b]));
    assert(keys[p[a]] == descending(top_downloads(gs, ss[p[a]])));
    assert(keys[p[b]] == descending(top_downloads(gs, ss[p[b]])));
}

proof fn lemma_by_top_len(gs: Seq<Game>, ss: Seq<Section>)
    ensures
        by_top(gs, ss).len() == ss.len(),
{
    let keys = ss.map_values(|s: Section| descending(top_downloads(gs, s)));
    lemma_pairs_compare(keys);
    law_order_exists(ss.len(), by_pairs(keys));
}

/// Between the pinned genres the sections follow each other by their most downloaded game,
/// which is the first of each.
pub proof fn law_popular_genres_come_first(gs: Seq<Game>, i: int, j: int)
    requires
        0 <= i < j < genre_sections(gs).len(),
        genre_sections(gs)[i].0 != "Arcade"@,
        genre_sections(gs)[i].0 != "Shoot'em Up"@,
        genre_sections(gs)[j].0 != "Other"@,
        genre_sections(gs)[i].1.len() > 0,
        genre_sections(gs)[j].1.len() > 0,
    ensures
        gs[genre_sections(gs)[i].1[0]].downloads >= gs[genre_sections(gs)[j].1[0]].downloads,
{
    let ss = each_sorted(gs, grouped(genres(gs)));
    let top = by_top(gs, ss);
    lemma_by_top_len(gs, ss);
    let keys = top.map_values(|s: Section| (pin(s.0), 0i64));
    lemma_pairs_compare(keys);
    law_order_exists(top.len(), by_pairs(keys));
    lemma_pinned_place(top, i, j);
    let p = stable_order(top.len(), by_pairs(keys));
    law_genres_are_pinned(gs, i, j);
    assert(pin(top[p[i]].0) == 2 || pin(top[p[i]].0) == 3);
    assert(pin(top[p[j]].0) != 3);
    lemma_by_top_place(gs, ss, p[i], p[j]);
}

/// The games of a genre follow each other by their downloads.
pub proof fn law_popular_games_come_first(gs: Seq<Game>, s: int, i: int, j: int)
    requires
        0 <= s < genre_sections(gs).len(),
        0 <= i < j < genre_sections(gs)[s].1.len(),
    ensures
        gs[genre_sections(gs)[s].1[i]].downloads >= gs[genre_sections(gs)[s].1[j]].downloads,
{
    let all = grouped(genres(gs));
    let ss = each_sorted(gs, all);
    let top = by_top(gs, ss);
    lemma_by_top_len(gs, ss);
    let keys = top.map_values(|s: Section| (pin(s.0), 0i64));
    lemma_pairs_compare(keys);
    law_order_exists(top.len(), by_pairs(keys));
    let p = stable_order(top.len(), by_pairs(keys));
    assert(genre_sections(gs)[s] == top[p[s]]);
    let tops = ss.map_values(|s: Section| descending(top_downloads(gs, s)));
    lemma_pairs_compare(tops);
    law_order_exists(ss.len(), by_pairs(tops));
    let q = stable_order(ss.len(), by_pairs(tops));
    let k = q[p[s]];
    assert(top[p[s]] == ss[k]);
    assert(ss[k].1 == by_downloads(gs, all[k].1));
    lemma_downloads_len(gs, all[k].1);
    law_downloads_descend(gs, all[k].1, i, j);
}

proof fn lemma_downloads_len(gs: Seq<Game>, idxs: Seq<int>)
    ensures
        by_downloads(gs, idxs).len() == idxs.len(),
{
    let keys = download_keys(gs, idxs);
    lemma_pairs_compare(keys);
    law_order_exists(idxs.len(), by_pairs(keys));
}

proof fn lemma_last_shown(gs: Seq<Game>, display: Seq<char>, n: int)
    requires
        0 <= n <= gs.len(),
    ensures
        match last_shown(gs, display, n) {
            Some(i) => 0 <= i < n && gs[i].display == display,
            None => forall|i: int| 0 <= i < n ==> (#[trigger] gs[i]).display != display,
        },
    decreases n,
{
    if n > 0 {
        lemma_last_shown(gs, display, n - 1);
    }
}

/// What was played last comes first: the rows stand in the order of the plays, each play that
/// the index has with a row that shows it, and none else.
pub proof fn law_plays_are_shown_in_order(gs: Seq<Game>, recent: Seq<Seq<char>>, more: Seq<char>)
    ensures
        ({
            let before = latest_rows(gs, recent);
            let after = latest_rows(gs, recent.push(more));
            if exists|i: int| 0 <= i < gs.len() && (#[trigger] gs[i]).display == more {
                &&& after.len() == before.len() + 1
                &&& after.drop_last() == before
                &&& 0 <= after.last() < gs.len()
                &&& gs[after.last()].display == more
            } else {
                after == before
            }
        }),
{
    assert(recent.push(more).drop_last() =~= recent);
    lemma_last_shown(gs, more, gs.len() as int);
    let before = latest_rows(gs, recent);
    if let Some(i) = last_shown(gs, more, gs.len() as int) {
        assert(gs[i].display == more);
        assert(before.push(i).drop_last() =~= before);
    }
}

proof fn lemma_rows_among(canons: Seq<Seq<char>>, wanted: Seq<Seq<char>>, n: int, row: int)
    requires
        0 <= n <= canons.len(),
    ensures
        rows_among(canons, wanted, n).contains(row) <==> 0 <= row < n && wanted.contains(canons[row]),
    decreases n,
{
    if n > 0 {
        lemma_rows_among(canons, wanted, n - 1, row);
        let init = rows_among(canons, wanted, n - 1);
        let all = rows_among(canons, wanted, n);
        if init.contains(row) {
            assert(all[init.index_of(row)] == row);
        }
        if all.contains(row) && !init.contains(row) {
            let k = all.index_of(row);
            if k < init.len() {
                assert(init[k] == row);
            }
        }
        if wanted.contains(canons[n - 1]) {
            assert(all[all.len() - 1] == n - 1);
        }
    }
}

/// A collection has the rows whose key it names, all of them.
pub proof fn law_collections_have_their_games(
    gs: Seq<Game>,
    canons: Seq<Seq<char>>,
    wanted: Seq<Seq<char>>,
    row: int,
)
    ensures
        members(gs, canons, wanted).contains(row) <==> 0 <= row < canons.len() && wanted.contains(
            canons[row],
        ),
{
    lemma_rows_among(canons, wanted, canons.len() as int, row);
    law_sorting_keeps_rows(gs, rows_among(canons, wanted, canons.len() as int), row);
}

/// The browser begins with what was played, then come the classics, the collections and the
/// genres; what has no game is left out.
pub proof fn law_sections_stand_in_order(
    gs: Seq<Game>,
    canons: Seq<Seq<char>>,
    recent: Seq<Seq<char>>,
    classics: Seq<Seq<char>>,
    collections: Seq<(Seq<char>, Seq<Seq<char>>)>,
)
    ensures
        ({
            let all = all_sections(gs, canons, recent, classics, collections);
            let played = latest_rows(gs, recent);
            let best = members(gs, canons, classics);
            let named = collection_sections(gs, canons, collections);
            let kinds = genre_sections(gs);
            let a = if played.len() > 0 {
                1int
            } else {
                0
            };
            let b = if best.len() > 0 {
                a + 1
            } else {
                a
            };
            &&& all.len() == b + named.len() + kinds.len()
            &&& played.len() > 0 ==> all[0] == ("latest played"@, played)
            &&& best.len() > 0 ==> all[a] == ("classics"@, best)
            &&& all.subrange(b, b + named.len()) == named
            &&& all.skip(b + named.len()) == kinds
        }),
{
    let all = all_sections(gs, canons, recent, classics, collections);
    let played = latest_rows(gs, recent);
    let best = members(gs, canons, classics);
    let named = collection_sections(gs, canons, collections);
    let a = if played.len() > 0 {
        1int
    } else {
        0
    };
    let b = if best.len() > 0 {
        a + 1
    } else {
        a
    };
    assert(all.subrange(b, b + named.len()) =~= named);
    assert(all.skip(b + named.len()) =~= genre_sections(gs));
}

/// The collections follow each other as they are named, without those that have no game.
pub proof fn law_collections_follow_each_other(
    gs: Seq<Game>,
    canons: Seq<Seq<char>>,
    collections: Seq<(Seq<char>, Seq<Seq<char>>)>,
    name: Seq<char>,
    titles: Seq<Seq<char>>,
)
    ensures
        ({
            let before = collection_sections(gs, canons, collections);
            let after = collection_sections(gs, canons, collections.push((name, titles)));
            let rows = members(gs, canons, titles);
            after == if rows.len() > 0 {
                before.push((name, rows))
            } else {
                before
            }
        }),
{
    assert(collections.push((name, titles)).drop_last() =~= collections);
    let before = collection_sections(gs, canons, collections);
    let rows = members(gs, canons, titles);
    if rows.len() > 0 {
        assert(before + seq![(name, rows)] =~= before.push((name, rows)));
    } else {
        assert(before + Seq::<Section>::empty() =~= before);
    }
}

/// The games are known to covers and collections by the key of what they are sought by.
pub proof fn law_keys_are_of_queries(gs: Seq<Game>, i: int)
    requires
        0 <= i < gs.len(),
    ensures
        canons_of(gs).len() == gs.len(),
        canons_of(gs)[i] == game_title_of(gs[i].query),
{
}

/// A line with a name and a title puts the key of the title into the collection of that name.
pub proof fn law_lines_of_collections(rs: Seq<Seq<Seq<char>>>, f: Seq<Seq<char>>, g: int)
    requires
        0 <= g < collected(named_titles(rs)).len(),
    ensures
        f.len() < 2 ==> named_titles(rs.push(f)) == named_titles(rs),
        f.len() >= 2 ==> named_titles(rs.push(f)) == named_titles(rs).push(f),
        ({
            let kept = named_titles(rs);
            let c = collected(kept)[g];
            let at = places(kept.map_values(|r: Seq<Seq<char>>| r[0]), c.0);
            &&& c.1.len() == at.len()
            &&& forall|k: int| 0 <= k < at.len() ==> #[trigger] c.1[k] == game_title_of(kept[at[k]][1])
        }),
{
    assert(rs.push(f).drop_last() =~= rs);
}

} // verus!
