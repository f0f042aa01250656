//! The Ultimate Tape Archive: its games, which of them a query means, and the tape
//! images in a game's folder.

use crate::catalogue::distinct;
use crate::formats::{begins_with, has_magic};
use crate::grouping::first_seen;
use crate::keyed::{entries, find_key, lemma_place_of, place_of, Entries};
use crate::order::{sort_texts, sorted_texts};
use crate::pattern::{find_pattern, group_texts, groups, matches_of, Pattern};
use crate::table::{fields_view, records, records_of};
use crate::text::{append, contains, has_part, replace, replaced, same, texts};
use crate::titles::{
    before_pattern, cut_pattern, html_unescape, norm, norm_of, title_key, title_key_of,
    unescaped,
};
use crate::url::{unquote, unquote_of};
use vstd::prelude::*;

verus! {

/// The different texts of a list, sorted.
pub open spec fn sorted_set(s: Seq<Seq<char>>) -> Seq<Seq<char>> {
    sorted_texts(first_seen(s))
}

pub fn sort_set(v: &Vec<String>) -> (r: Vec<String>)
    ensures
        texts(r@) == sorted_set(texts(v@)),
{
    sort_texts(&distinct(v))
}

/// A game of the archive.
#[derive(Debug)]
pub struct Tape {
    pub key: String,
    pub display: String,
    pub href: String,
}

/// A game of the archive.
#[verifier::ext_equal]
pub struct Folder {
    pub key: Seq<char>,
    pub display: Seq<char>,
    pub href: Seq<char>,
}

impl View for Tape {
    type V = Folder;

    open spec fn view(&self) -> Folder {
        Folder { key: self.key@, display: self.display@, href: self.href@ }
    }
}

pub open spec fn folders(v: Seq<Tape>) -> Seq<Folder> {
    v.map_values(|t: Tape| t@)
}

/// A linked name, decoded.
pub open spec fn link_name(href: Seq<char>) -> Seq<char> {
    unescaped(unquote_of(href))
}

/// The game that a folder's link is to: its title goes up to the year.
pub open spec fn folder_of(href: Seq<char>) -> Folder {
    let name = link_name(href);
    let title = before_pattern(replaced(name, "_"@, " "@), Pattern::TapeYear);
    Folder { key: norm_of(title), display: name, href }
}

/// The games of the archive's listing.
pub open spec fn archive_games(page: Seq<char>) -> Seq<Folder> {
    sorted_set(groups(matches_of(Pattern::TapeFolder, page))).map_values(
        |h: Seq<char>| folder_of(h),
    )
}

fn read_folder(href: &str) -> (t: Tape)
    ensures
        t@ == folder_of(href@),
{
    proof {
        reveal_strlit("_");
    }
    let name = html_unescape(unquote(href).as_str());
    let spaced = replace(name.as_str(), "_", " ");
    let title = cut_pattern(spaced.as_str(), Pattern::TapeYear);
    Tape { key: norm(title.as_str()), display: name, href: href.to_owned() }
}

/// The games of these folders.
pub fn read_folders(hrefs: &Vec<String>) -> (r: Vec<Tape>)
    ensures
        folders(r@) == sorted_set(texts(hrefs@)).map_values(|h: Seq<char>| folder_of(h)),
{
    let sorted = sort_set(hrefs);
    let ghost all = texts(sorted@);
    let mut r: Vec<Tape> = Vec::new();
    let mut i: usize = 0;
    while i < sorted.len()
        invariant
            all == texts(sorted@),
            i <= sorted@.len(),
            r@.len() == i,
            forall|k: int| 0 <= k < i ==> (#[trigger] r@[k])@ == folder_of(all[k]),
        decreases sorted@.len() - i,
    {
        assert(all[i as int] == sorted@[i as int]@);
        r.push(read_folder(sorted[i].as_str()));
        i += 1;
    }
    assert(folders(r@) =~= all.map_values(|h: Seq<char>| folder_of(h)));
    r
}

/// Reads the games of the archive's listing.
pub fn load_index(page: &str) -> (r: Vec<Tape>)
    ensures
        folders(r@) == archive_games(page@),
{
    read_folders(&group_texts(&find_pattern(Pattern::TapeFolder, page)))
}

// ---- which game ---------------------------------------------------------------------------------------

/// What is shown of a game, and its folder.
pub open spec fn target(f: Folder) -> (Seq<char>, Seq<char>) {
    (f.display, f.href)
}

/// The games with a key.
pub open spec fn with_key(fs: Seq<Folder>, key: Seq<char>) -> Entries
    decreases fs.len(),
{
    if fs.len() == 0 {
        Seq::empty()
    } else if fs.last().key == key {
        with_key(fs.drop_last(), key).push(target(fs.last()))
    } else {
        with_key(fs.drop_last(), key)
    }
}

/// The games whose key has a part.
pub open spec fn with_part(fs: Seq<Folder>, part: Seq<char>) -> Entries
    decreases fs.len(),
{
    if fs.len() == 0 {
        Seq::empty()
    } else if has_part(fs.last().key, part) {
        with_part(fs.drop_last(), part).push(target(fs.last()))
    } else {
        with_part(fs.drop_last(), part)
    }
}

/// The games that a query with this key means: those with that very key, else those
/// whose key has it as a part.
pub open spec fn meant(fs: Seq<Folder>, qn: Seq<char>) -> Entries {
    if with_key(fs, qn).len() > 0 {
        with_key(fs, qn)
    } else if qn.len() == 0 {
        Seq::empty()
    } else {
        with_part(fs, qn)
    }
}

/// The games with a key.
pub fn find_exact(fmap: &Vec<Tape>, key: &str) -> (r: Vec<(String, String)>)
    ensures
        entries(r@) == with_key(folders(fmap@), key@),
{
    let ghost all = folders(fmap@);
    let mut r: Vec<(String, String)> = Vec::new();
    let mut i: usize = 0;
    assert(entries(r@) =~= with_key(all.take(0), key@));
    while i < fmap.len()
        invariant
            all == folders(fmap@),
            i <= fmap@.len(),
            entries(r@) == with_key(all.take(i as int), key@),
        decreases fmap@.len() - i,
    {
        proof {
            assert(all.take(i + 1).drop_last() =~= all.take(i as int));
            assert(all[i as int] == fmap@[i as int]@);
        }
        if same(fmap[i].key.as_str(), key) {
            let e = (fmap[i].display.clone(), fmap[i].href.clone());
            assert(entries(r@.push(e)) =~= entries(r@).push((e.0@, e.1@)));
            r.push(e);
        }
        i += 1;
    }
    assert(all.take(i as int) =~= all);
    r
}

/// The games whose key has a query's key as a part; none when that is empty.
pub fn find_part(fmap: &Vec<Tape>, qn: &str) -> (r: Vec<(String, String)>)
    ensures
        entries(r@) == (if qn@.len() == 0 {
            Seq::empty()
        } else {
            with_part(folders(fmap@), qn@)
        }),
{
    let ghost all = folders(fmap@);
    let mut r: Vec<(String, String)> = Vec::new();
    assert(entries(r@) =~= Seq::empty());
    if qn.is_empty() {
        return r;
    }
    let mut i: usize = 0;
    assert(entries(r@) =~= with_part(all.take(0), qn@));
    while i < fmap.len()
        invariant
            all == folders(fmap@),
            i <= fmap@.len(),
            entries(r@) == with_part(all.take(i as int), qn@),
        decreases fmap@.len() - i,
    {
        proof {
            assert(all.take(i + 1).drop_last() =~= all.take(i as int));
            assert(all[i as int] == fmap@[i as int]@);
        }
        if contains(fmap[i].key.as_str(), qn) {
            let e = (fmap[i].display.clone(), fmap[i].href.clone());
            assert(entries(r@.push(e)) =~= entries(r@).push((e.0@, e.1@)));
            r.push(e);
        }
        i += 1;
    }
    assert(all.take(i as int) =~= all);
    r
}

/// The games whose key has the query's key as a part.
pub fn find_substr(fmap: &Vec<Tape>, q: &str) -> (r: Vec<(String, String)>)
    ensures
        entries(r@) == (if norm_of(q@).len() == 0 {
            Seq::empty()
        } else {
            with_part(folders(fmap@), norm_of(q@))
        }),
{
    find_part(fmap, norm(q).as_str())
}

/// The games that a query's key means.
pub fn find_meant(fmap: &Vec<Tape>, qn: &str) -> (r: Vec<(String, String)>)
    ensures
        entries(r@) == meant(folders(fmap@), qn@),
{
    let exact = find_exact(fmap, qn);
    assert(entries(exact@).len() == exact@.len());
    if exact.len() > 0 {
        exact
    } else {
        find_part(fmap, qn)
    }
}

/// The games that a query means.
pub fn find_games(fmap: &Vec<Tape>, query: &str) -> (r: Vec<(String, String)>)
    ensures
        entries(r@) == meant(folders(fmap@), norm_of(query@)),
{
    find_meant(fmap, norm(query).as_str())
}

/// The games with a title's key.
pub fn find_title(fmap: &Vec<Tape>, title: &str) -> (r: Vec<(String, String)>)
    ensures
        entries(r@) == with_key(folders(fmap@), title_key_of(title@)),
{
    find_exact(fmap, title_key(title).as_str())
}

/// The targets with those of a list that are not among them yet.
pub open spec fn with_targets(ts: Entries, more: Entries) -> Entries
    decreases more.len(),
{
    if more.len() == 0 {
        ts
    } else {
        let init = with_targets(ts, more.drop_last());
        if place_of(init, more.last().0, 0) is Some {
            init
        } else {
            init.push(more.last())
        }
    }
}

/// Adds targets that are not there yet.
pub fn add_targets(ts: &mut Vec<(String, String)>, more: &Vec<(String, String)>)
    ensures
        entries(final(ts)@) == with_targets(entries(old(ts)@), entries(more@)),
{
    let ghost start = entries(ts@);
    let ghost all = entries(more@);
    let mut i: usize = 0;
    assert(all.take(0) =~= Seq::empty());
    while i < more.len()
        invariant
            all == entries(more@),
            i <= more@.len(),
            entries(ts@) == with_targets(start, all.take(i as int)),
        decreases more@.len() - i,
    {
        proof {
            assert(all.take(i + 1).drop_last() =~= all.take(i as int));
            assert(all[i as int] == (more@[i as int].0@, more@[i as int].1@));
        }
        if find_key(ts, more[i].0.as_str()).is_none() {
            let e = (more[i].0.clone(), more[i].1.clone());
            assert(entries(ts@.push(e)) =~= entries(ts@).push((e.0@, e.1@)));
            ts.push(e);
        }
        i += 1;
    }
    assert(all.take(i as int) =~= all);
}

/// The titles that the index has as missing.
pub open spec fn missing_in(rs: Seq<Seq<Seq<char>>>) -> Seq<Seq<char>>
    decreases rs.len(),
{
    if rs.len() == 0 {
        Seq::empty()
    } else {
        let f = rs.last();
        let init = missing_in(rs.drop_last());
        if f.len() >= 5 && f[1] == "missing"@ {
            init.push(f[4])
        } else {
            init
        }
    }
}

/// The titles that the index has as missing.
pub fn missing_titles(index: &str) -> (r: Vec<String>)
    ensures
        texts(r@) == missing_in(records_of(index@)),
{
    let rs = records(index);
    let ghost all = fields_view(rs@);
    let mut r: Vec<String> = Vec::new();
    let mut i: usize = 0;
    assert(texts(r@) =~= missing_in(all.take(0)));
    while i < rs.len()
        invariant
            all == fields_view(rs@),
            i <= rs@.len(),
            texts(r@) == missing_in(all.take(i as int)),
        decreases rs@.len() - i,
    {
        let f = &rs[i];
        proof {
            assert(all.take(i + 1).drop_last() =~= all.take(i as int));
            assert(all[i as int] == texts(f@));
        }
        if f.len() >= 5 {
            assert(texts(f@)[1] == f@[1]@ && texts(f@)[4] == f@[4]@);
            if same(f[1].as_str(), "missing") {
                let t = f[4].clone();
                assert(texts(r@.push(t)) =~= texts(r@).push(t@));
                r.push(t);
            }
        }
        i += 1;
    }
    assert(all.take(i as int) =~= all);
    r
}

// ---- a game's folder -------------------------------------------------------------------------------------

/// The address of a folder of the archive.
pub open spec fn folder_address(href: Seq<char>) -> Seq<char> {
    "https://uta.pokefinder.org/Ultimate_Tape_Archive/"@ + href + "/"@
}

pub fn folder_url(href: &str) -> (r: String)
    ensures
        r@ == folder_address(href@),
{
    append(append("https://uta.pokefinder.org/Ultimate_Tape_Archive/", href).as_str(), "/")
}

/// The tape images that a folder's page links to: the name of each and its address.
pub open spec fn tapes_on(links: Seq<Seq<char>>, folder: Seq<char>) -> Entries {
    sorted_set(links).map_values(|t: Seq<char>| (link_name(t), folder + t))
}

/// The tape images that these links are to.
pub fn tapes_of_links(links: &Vec<String>, folder: &str) -> (r: Vec<(String, String)>)
    ensures
        entries(r@) == tapes_on(texts(links@), folder@),
{
    let sorted = sort_set(links);
    let ghost all = texts(sorted@);
    let mut r: Vec<(String, String)> = Vec::new();
    let mut i: usize = 0;
    while i < sorted.len()
        invariant
            all == texts(sorted@),
            i <= sorted@.len(),
            r@.len() == i,
            forall|k: int|
                0 <= k < i ==> ((#[trigger] r@[k]).0@, r@[k].1@) == (
                    link_name(all[k]),
                    folder@ + all[k],
                ),
        decreases sorted@.len() - i,
    {
        assert(all[i as int] == sorted@[i as int]@);
        let t = sorted[i].as_str();
        r.push((html_unescape(unquote(t).as_str()), append(folder, t)));
        i += 1;
    }
    assert(entries(r@) =~= all.map_values(|t: Seq<char>| (link_name(t), folder@ + t)));
    r
}

/// The tape images in a folder, from its page.
pub fn tapes_in_folder(page: &str, href: &str) -> (r: Vec<(String, String)>)
    ensures
        entries(r@) == tapes_on(
            groups(matches_of(Pattern::TapeLink, page@)),
            folder_address(href@),
        ),
{
    let links = group_texts(&find_pattern(Pattern::TapeLink, page));
    tapes_of_links(&links, folder_url(href).as_str())
}

/// The first bytes of a tape image: "C64-TAPE-RAW".
pub open spec fn tape_magic() -> Seq<u8> {
    seq![0x43, 0x36, 0x34, 0x2d, 0x54, 0x41, 0x50, 0x45, 0x2d, 0x52, 0x41, 0x57]
}

/// Whether downloaded data is a tape image.
pub fn is_tape(data: &Vec<u8>) -> (r: bool)
    ensures
        r == has_magic(data@, tape_magic()),
{
    let magic: Vec<u8> = vec![
        0x43, 0x36, 0x34, 0x2d, 0x54, 0x41, 0x50, 0x45, 0x2d, 0x52, 0x41, 0x57,
    ];
    assert(magic@ =~= tape_magic());
    begins_with(data, &magic)
}

// ---- laws -----------------------------------------------------------------------------------------------------

/// No game is taken twice.
pub proof fn law_targets_are_taken_once(ts: Entries, more: Entries)
    requires
        crate::keyed::keys_differ(ts),
    ensures
        crate::keyed::keys_differ(with_targets(ts, more)),
    decreases more.len(),
{
    if more.len() > 0 {
        let init = with_targets(ts, more.drop_last());
        law_targets_are_taken_once(ts, more.drop_last());
        lemma_place_of(init, more.last().0, 0);
        let n = with_targets(ts, more);
        assert forall|i: int, j: int| 0 <= i < j < n.len() implies (#[trigger] n[i]).0 != (
        #[trigger] n[j]).0 by {
            if j < init.len() {
                assert(init[i].0 != init[j].0);
            } else {
                assert(n[i] == init[i]);
            }
        }
    }
}

/// A query means the games with its very key, where there are any; else those whose key has
/// it as a part; and nothing without a key.
pub proof fn law_exact_tapes_come_first(fs: Seq<Folder>, qn: Seq<char>, i: int)
    requires
        0 <= i < fs.len(),
    ensures
        ({
            let m = meant(fs, qn);
            let exact = exists|k: int| 0 <= k < fs.len() && (#[trigger] fs[k]).key == qn;
            let shown = (fs[i].display, fs[i].href);
            &&& exact && fs[i].key == qn ==> m.contains(shown)
            &&& !exact && qn.len() > 0 && has_part(fs[i].key, qn) ==> m.contains(shown)
            &&& !exact && qn.len() == 0 ==> m.len() == 0
            &&& exact ==> forall|t: (Seq<char>, Seq<char>)| #[trigger]
                m.contains(t) ==> exists|k: int|
                    0 <= k < fs.len() && (#[trigger] fs[k]).key == qn && t == (fs[k].display, fs[k].href)
        }),
{
    lemma_with_key(fs, qn);
    lemma_with_part(fs, qn);
    let keyed = with_key(fs, qn);
    if exists|k: int| 0 <= k < fs.len() && (#[trigger] fs[k]).key == qn {
        let k = choose|k: int| 0 <= k < fs.len() && (#[trigger] fs[k]).key == qn;
        assert(keyed.contains(target(fs[k])));
    } else if keyed.len() > 0 {
        assert(keyed.contains(keyed[0]));
    }
}

proof fn lemma_with_key(fs: Seq<Folder>, key: Seq<char>)
    ensures
        forall|k: int|
            0 <= k < fs.len() && (#[trigger] fs[k]).key == key ==> with_key(fs, key).contains(
                target(fs[k]),
            ),
        forall|t: (Seq<char>, Seq<char>)| #[trigger]
            with_key(fs, key).contains(t) ==> exists|k: int|
                0 <= k < fs.len() && (#[trigger] fs[k]).key == key && t == target(fs[k]),
    decreases fs.len(),
{
    if fs.len() > 0 {
        let init = fs.drop_last();
        lemma_with_key(init, key);
        let before = with_key(init, key);
        let all = with_key(fs, key);
        assert forall|k: int| 0 <= k < fs.len() && (#[trigger] fs[k]).key == key implies all.contains(
            target(fs[k]),
        ) by {
            if k < init.len() {
                assert(init[k] == fs[k]);
                assert(before.contains(target(init[k])));
                let n = before.index_of(target(init[k]));
                assert(all[n] == target(fs[k]));
            } else {
                assert(all[all.len() - 1] == target(fs[k]));
            }
        }
        assert forall|t: (Seq<char>, Seq<char>)| #[trigger] all.contains(t) implies exists|k: int|
            0 <= k < fs.len() && (#[trigger] fs[k]).key == key && t == target(fs[k]) by {
            let n = all.index_of(t);
            if n < before.len() {
                assert(before[n] == t);
                assert(before.contains(t));
                let k = choose|k: int|
                    0 <= k < init.len() && (#[trigger] init[k]).key == key && t == target(init[k]);
                assert(fs[k] == init[k]);
            } else {
                assert(fs[fs.len() - 1].key == key);
            }
        }
    }
}

proof fn lemma_with_part(fs: Seq<Folder>, part: Seq<char>)
    ensures
        forall|k: int|
            0 <= k < fs.len() && has_part((#[trigger] fs[k]).key, part) ==> with_part(
                fs,
                part,
            ).contains(target(fs[k])),
    decreases fs.len(),
{
    if fs.len() > 0 {
        let init = fs.drop_last();
        lemma_with_part(init, part);
        let before = with_part(init, part);
        let all = with_part(fs, part);
        assert forall|k: int|
            0 <= k < fs.len() && has_part((#[trigger] fs[k]).key, part) implies all.contains(
            target(fs[k]),
        ) by {
            if k < init.len() {
                assert(init[k] == fs[k]);
                assert(before.contains(target(init[k])));
                let n = before.index_of(target(init[k]));
                assert(all[n] == target(fs[k]));
            } else {
                assert(all[all.len() - 1] == target(fs[k]));
            }
        }
    }
}

/// The folder of a game: shown by its name, found by the key of its title, which goes up to
/// the year.
pub proof fn law_folders_of_tapes(href: Seq<char>)
    ensures
        ({
            let name = unescaped(unquote_of(href));
            let f = folder_of(href);
            &&& f.display == name
            &&& f.href == href
            &&& f.key == norm_of(before_pattern(replaced(name, "_"@, " "@), Pattern::TapeYear))
        }),
{
}

/// The missing titles are those of the index that it calls so, in its order.
pub proof fn law_missing_tapes(rs: Seq<Seq<Seq<char>>>, f: Seq<Seq<char>>)
    ensures
        f.len() >= 5 && f[1] == "missing"@ ==> missing_in(rs.push(f)) == missing_in(rs).push(f[4]),
        f.len() < 5 || f[1] != "missing"@ ==> missing_in(rs.push(f)) == missing_in(rs),
{
    assert(rs.push(f).drop_last() =~= rs);
}

/// Every target that is asked for is taken, the first of each name.
pub proof fn law_targets_are_all_taken(ts: Entries, more: Entries, t: (Seq<char>, Seq<char>))
    ensures
        ({
            let before = with_targets(ts, more);
            let after = with_targets(ts, more.push(t));
            let there = exists|i: int| 0 <= i < before.len() && (#[trigger] before[i]).0 == t.0;
            &&& there ==> after == before
            &&& !there ==> after == before.push(t)
        }),
{
    assert(more.push(t).drop_last() =~= more);
    crate::keyed::lemma_place_of(with_targets(ts, more), t.0, 0);
}

/// The different links of a page are sorted, and none is lost.
pub proof fn law_links_are_sorted(s: Seq<Seq<char>>, i: int, j: int, t: Seq<char>)
    ensures
        sorted_set(s).contains(t) <==> s.contains(t),
        0 <= i < j < sorted_set(s).len() ==> crate::order::text_le(sorted_set(s)[i], sorted_set(s)[j]),
{
    crate::order::law_texts_are_sorted(first_seen(s));
    crate::grouping::lemma_first_seen(s);
}

} // verus!
