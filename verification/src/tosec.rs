//! The TOSEC listing: the disks it links to, the index that is kept of them, and
//! the menu of their games.

use crate::disk::{query_words, words_of};
use crate::keyed::{entries, find_key, lookup, put, with_entry, Entries};
use crate::order::{by_texts, ints, order_by_texts, stable_order};
use crate::pattern::{find_pattern, group_texts, groups, matches_of, Pattern};
use crate::releases::{
    best_release, best_release_of, disk_no, disk_number, offer, offers, side_no, side_number,
    Handle, Item, Offer,
};
use crate::sections::arranged;
use crate::table::{
    fields_view, fits_line, law_lines_come_back, lemma_char_from_at, line_of, records,
    records_of, table_text, write_records,
};
use crate::text::{
    append, chars_of, contains, count, count_of, ends, ends_with, find, find_from, has_part,
    join, joined, lemma_find_from, lines, lines_of, lowered, occurs_at, replace, replaced, same,
    split, split_all, split_first, split_once, string_range, texts, to_lowercase, trim, trimmed,
};
use crate::titles::{game_title, game_title_of, html_unescape, unescaped};
use crate::url::{unquote, unquote_of};
use vstd::prelude::*;
use vstd::utf8::encode_utf8;

verus! {

// ---- links ------------------------------------------------------------------------------------

/// A text behind the last place where `part` stands in it; all of it when it
/// stands nowhere.
pub open spec fn after_last(s: Seq<char>, part: Seq<char>) -> Seq<char>
    decreases s.len(),
{
    match find_from(s, part, 0) {
        Some(i) => if part.len() > 0 && 0 <= i && i + part.len() <= s.len() {
            after_last(s.skip(i + part.len()), part)
        } else {
            s
        },
        None => s,
    }
}

proof fn lemma_find_skip(s: Seq<char>, part: Seq<char>, from: int, k: int)
    requires
        0 <= from <= s.len(),
        0 <= k,
    ensures
        match find_from(s, part, from + k) {
            Some(i) => find_from(s.skip(from), part, k) == Some(i - from),
            None => find_from(s.skip(from), part, k) is None,
        },
    decreases s.len() + 1 - from - k,
{
    if from + k + part.len() <= s.len() {
        assert(s.skip(from).subrange(k, k + part.len()) =~= s.subrange(
            from + k,
            from + k + part.len(),
        ));
        if !occurs_at(s, part, from + k) {
            lemma_find_skip(s, part, from, k + 1);
        }
    }
}

pub fn text_after_last(s: &str, part: &str) -> (r: String)
    requires
        part@.len() > 0,
    ensures
        r@ == after_last(s@, part@),
{
    let v = chars_of(s);
    let p = chars_of(part);
    let n: usize = v.len();
    let mut from: usize = 0;
    assert(s@.skip(0) =~= s@);
    loop
        invariant
            v@ == s@,
            n == v@.len(),
            p@ == part@,
            part@.len() > 0,
            from <= v@.len(),
            after_last(s@, part@) == after_last(s@.skip(from as int), part@),
        decreases v@.len() - from,
    {
        proof {
            lemma_find_skip(s@, part@, from as int, 0);
            lemma_find_from(s@, part@, from as int);
        }
        match find(&v, &p, from) {
            Some(i) => {
                assert(s@.skip(from as int).skip(i - from + part@.len()) =~= s@.skip(
                    i + part@.len(),
                ));
                from = i + p.len();
            },
            None => {
                let r = string_range(&v, from, v.len());
                assert(r@ =~= s@.skip(from as int));
                return r;
            },
        }
    }
}

/// The link is to a game's disk image.
pub open spec fn is_game_link(href: Seq<char>) -> bool {
    has_part(href, "Games"@) && (has_part(href, "%5BD64%5D"@) || has_part(href, "%5BG64%5D"@))
}

/// A text without an ending, where it has it.
pub open spec fn without_ending(s: Seq<char>, ending: Seq<char>) -> Seq<char> {
    if ends(s, ending) {
        s.take(s.len() - ending.len())
    } else {
        s
    }
}

pub fn strip_ending(s: &str, ending: &str) -> (r: String)
    ensures
        r@ == without_ending(s@, ending@),
{
    if ends_with(s, ending) {
        let v = chars_of(s);
        let n: usize = v.len() - chars_of(ending).len();
        let r = string_range(&v, 0, n);
        assert(r@ =~= s@.take(s@.len() - ending@.len()));
        r
    } else {
        s.to_owned()
    }
}

/// The title that a link is to: its last part, decoded, without the extension.
pub open spec fn link_title(href: Seq<char>) -> Seq<char> {
    without_ending(unescaped(unquote_of(after_last(href, "%2F"@))), ".zip"@)
}

/// The listing after one more link: a title keeps its first link, but a D64 image
/// takes the place of a G64 image.
pub open spec fn with_link(s: Entries, href: Seq<char>) -> Entries {
    let title = link_title(href);
    let url = "https:"@ + href;
    if !is_game_link(href) {
        s
    } else {
        match lookup(s, title) {
            Some(cur) => if has_part(href, "%5BD64%5D"@) && has_part(cur, "%5BG64%5D"@) {
                with_entry(s, title, url)
            } else {
                s
            },
            None => with_entry(s, title, url),
        }
    }
}

/// The listing of these links.
pub open spec fn with_links(hrefs: Seq<Seq<char>>) -> Entries
    decreases hrefs.len(),
{
    if hrefs.len() == 0 {
        Seq::empty()
    } else {
        with_link(with_links(hrefs.drop_last()), hrefs.last())
    }
}

/// Entries in the order of their keys.
pub open spec fn sorted_entries(s: Entries) -> Entries {
    arranged(s, stable_order(s.len(), by_texts(s.map_values(|e: (Seq<char>, Seq<char>)| e.0))))
}

/// Entries as the records of a table.
pub open spec fn entry_records(s: Entries) -> Seq<Seq<Seq<char>>> {
    s.map_values(|e: (Seq<char>, Seq<char>)| seq![e.0, e.1])
}

fn enter_link(v: &mut Vec<(String, String)>, href: &str)
    ensures
        entries(final(v)@) == with_link(entries(old(v)@), href@),
{
    let is_d64 = contains(href, "%5BD64%5D");
    if !contains(href, "Games") || !(is_d64 || contains(href, "%5BG64%5D")) {
        return ;
    }
    proof {
        reveal_strlit("%2F");
    }
    let last = text_after_last(href, "%2F");
    let name = html_unescape(unquote(last.as_str()).as_str());
    let title = strip_ending(name.as_str(), ".zip");
    let url = append("https:", href);
    match find_key(v, title.as_str()) {
        Some(i) => {
            assert(entries(v@)[i as int] == (v@[i as int].0@, v@[i as int].1@));
            if is_d64 && contains(v[i].1.as_str(), "%5BG64%5D") {
                put(v, title, url);
            }
        },
        None => put(v, title, url),
    }
}

/// Enters links into a listing.
pub fn enter_links(hrefs: &Vec<String>) -> (v: Vec<(String, String)>)
    ensures
        entries(v@) == with_links(texts(hrefs@)),
{
    let ghost all = texts(hrefs@);
    let mut v: Vec<(String, String)> = Vec::new();
    let mut i: usize = 0;
    assert(entries(v@) =~= with_links(all.take(0)));
    while i < hrefs.len()
        invariant
            all == texts(hrefs@),
            i <= hrefs@.len(),
            entries(v@) == with_links(all.take(i as int)),
        decreases hrefs@.len() - i,
    {
        proof {
            assert(all.take(i + 1).drop_last() =~= all.take(i as int));
            assert(all[i as int] == hrefs@[i as int]@);
        }
        enter_link(&mut v, hrefs[i].as_str());
        i += 1;
    }
    assert(all.take(i as int) =~= all);
    v
}

/// Puts entries in the order of their keys.
pub fn sort_entries(v: &Vec<(String, String)>) -> (r: Vec<(String, String)>)
    ensures
        entries(r@) == sorted_entries(entries(v@)),
{
    let mut keys: Vec<String> = Vec::new();
    let ghost goal = entries(v@).map_values(|e: (Seq<char>, Seq<char>)| e.0);
    let mut i: usize = 0;
    while i < v.len()
        invariant
            goal == entries(v@).map_values(|e: (Seq<char>, Seq<char>)| e.0),
            i <= v@.len(),
            keys@.len() == i,
            forall|k: int| 0 <= k < i ==> (#[trigger] keys@[k])@ == goal[k],
        decreases v@.len() - i,
    {
        keys.push(v[i].0.clone());
        i += 1;
    }
    assert(texts(keys@) =~= goal);
    let p = order_by_texts(&keys);
    arrange_entries(v, &p)
}

fn arrange_entries(v: &Vec<(String, String)>, p: &Vec<usize>) -> (r: Vec<(String, String)>)
    requires
        forall|k: int| 0 <= k < ints(p@).len() ==> 0 <= #[trigger] ints(p@)[k] < v@.len(),
    ensures
        entries(r@) == arranged(entries(v@), ints(p@)),
{
    let mut r: Vec<(String, String)> = Vec::new();
    let mut i: usize = 0;
    while i < p.len()
        invariant
            forall|k: int| 0 <= k < ints(p@).len() ==> 0 <= #[trigger] ints(p@)[k] < v@.len(),
            i <= p@.len(),
            r@.len() == i,
            forall|k: int|
                0 <= k < i ==> ((#[trigger] r@[k]).0@, r@[k].1@) == entries(v@)[ints(p@)[k]],
        decreases p@.len() - i,
    {
        assert(ints(p@)[i as int] == p@[i as int]);
        let e = &v[p[i]];
        r.push((e.0.clone(), e.1.clone()));
        i += 1;
    }
    assert(entries(r@) =~= arranged(entries(v@), ints(p@)));
    r
}

/// Writes entries as a table.
pub fn write_entries(v: &Vec<(String, String)>) -> (r: String)
    ensures
        r@ == table_text(entry_records(entries(v@))),
{
    let mut rs: Vec<Vec<String>> = Vec::new();
    let mut i: usize = 0;
    while i < v.len()
        invariant
            i <= v@.len(),
            rs@.len() == i,
            forall|k: int| 0 <= k < i ==> texts((#[trigger] rs@[k])@) == entry_records(entries(v@))[k],
        decreases v@.len() - i,
    {
        let mut f: Vec<String> = Vec::new();
        f.push(v[i].0.clone());
        f.push(v[i].1.clone());
        assert(texts(f@) =~= entry_records(entries(v@))[i as int]);
        rs.push(f);
        i += 1;
    }
    assert(fields_view(rs@) =~= entry_records(entries(v@)));
    write_records(&rs)
}

/// The listing that a page gives.
pub open spec fn listing_of(page: Seq<char>) -> Entries {
    sorted_entries(with_links(groups(matches_of(Pattern::ZipLink, page))))
}

/// The index of the listing page, and the number of disks in it.
pub fn build_tosec_index(page: &str) -> (r: (String, usize))
    ensures
        r.0@ == table_text(entry_records(listing_of(page@))),
        r.1 == listing_of(page@).len(),
{
    let hrefs = group_texts(&find_pattern(Pattern::ZipLink, page));
    let v = sort_entries(&enter_links(&hrefs));
    assert(entries(v@).len() == v@.len());
    (write_entries(&v), v.len())
}

// ---- entries ----------------------------------------------------------------------------------

/// The entries of a text: each line is split at its first tab, and lines without
/// one are none.
pub open spec fn entries_of_lines(ls: Seq<Seq<char>>) -> Entries
    decreases ls.len(),
{
    if ls.len() == 0 {
        Seq::empty()
    } else {
        let init = entries_of_lines(ls.drop_last());
        match split_first(ls.last(), '\t') {
            Some(e) => init.push(e),
            None => init,
        }
    }
}

/// Reads the entries of a text.
pub fn tosec_entries(text: &str) -> (v: Vec<(String, String)>)
    ensures
        entries(v@) == entries_of_lines(lines_of(text@)),
{
    let ls = lines(text);
    let ghost all = texts(ls@);
    let mut v: Vec<(String, String)> = Vec::new();
    let mut i: usize = 0;
    assert(entries(v@) =~= entries_of_lines(all.take(0)));
    while i < ls.len()
        invariant
            all == texts(ls@),
            i <= ls@.len(),
            entries(v@) == entries_of_lines(all.take(i as int)),
        decreases ls@.len() - i,
    {
        proof {
            assert(all.take(i + 1).drop_last() =~= all.take(i as int));
            assert(all[i as int] == ls@[i as int]@);
        }
        match split_once(ls[i].as_str(), '\t') {
            Some((k, t)) => {
                assert(entries(v@.push((k, t))) =~= entries(v@).push((k@, t@)));
                v.push((k, t));
            },
            None => {},
        }
        i += 1;
    }
    assert(all.take(i as int) =~= all);
    v
}

/// One of the words stands in a text.
pub open spec fn has_any(s: Seq<char>, words: Seq<Seq<char>>) -> bool {
    exists|i: int| 0 <= i < words.len() && has_part(s, #[trigger] words[i])
}

pub open spec fn tosec_offer(e: (Seq<char>, Seq<char>)) -> Offer {
    Offer { src: "tosec"@, reff: e.1, title: e.0 }
}

/// The entries whose game's title has one of the words.
pub open spec fn offers_with(es: Entries, words: Seq<Seq<char>>) -> Seq<Offer>
    decreases es.len(),
{
    if es.len() == 0 {
        Seq::empty()
    } else if has_any(game_title_of(es.last().0), words) {
        offers_with(es.drop_last(), words).push(tosec_offer(es.last()))
    } else {
        offers_with(es.drop_last(), words)
    }
}

fn contains_any(s: &str, words: &Vec<String>) -> (r: bool)
    ensures
        r == has_any(s@, texts(words@)),
{
    let ghost ws = texts(words@);
    let mut i: usize = 0;
    while i < words.len()
        invariant
            ws == texts(words@),
            i <= words@.len(),
            forall|k: int| 0 <= k < i ==> !has_part(s@, #[trigger] ws[k]),
        decreases words@.len() - i,
    {
        assert(ws[i as int] == words@[i as int]@);
        if contains(s, words[i].as_str()) {
            return true;
        }
        i += 1;
    }
    assert(ws.len() == words@.len());
    false
}

/// The disks of the listing that a query finds.
pub fn search_tosec(es: &Vec<(String, String)>, query: &str) -> (r: Vec<Item>)
    ensures
        offers(r@) == offers_with(entries(es@), query_words(query@)),
{
    let words = words_of(query);
    let ghost all = entries(es@);
    let ghost ws = texts(words@);
    let mut r: Vec<Item> = Vec::new();
    let mut i: usize = 0;
    assert(offers(r@) =~= offers_with(all.take(0), ws));
    while i < es.len()
        invariant
            all == entries(es@),
            ws == texts(words@),
            i <= es@.len(),
            offers(r@) == offers_with(all.take(i as int), ws),
        decreases es@.len() - i,
    {
        proof {
            assert(all.take(i + 1).drop_last() =~= all.take(i as int));
            assert(all[i as int] == (es@[i as int].0@, es@[i as int].1@));
        }
        if contains_any(game_title(es[i].0.as_str()).as_str(), &words) {
            let it: Item = (Handle { src: "tosec", reff: es[i].1.clone() }, es[i].0.clone());
            assert(offer(it) =~= tosec_offer(all[i as int]));
            assert(offers(r@.push(it)) =~= offers(r@).push(offer(it)));
            r.push(it);
        }
        i += 1;
    }
    assert(all.take(i as int) =~= all);
    r
}

// ---- the menu of games ---------------------------------------------------------------------------

/// `a` is a cleaner title than `b`: fewer flags, then shorter, in bytes.
pub open spec fn cleaner(a: Seq<char>, b: Seq<char>) -> bool {
    let (fa, fb) = (count_of(a, '['), count_of(b, '['));
    fa < fb || (fa == fb && encode_utf8(a).len() < encode_utf8(b).len())
}

/// The games of the listing, each with its cleanest title.
pub open spec fn menu_games(es: Entries) -> Entries
    decreases es.len(),
{
    if es.len() == 0 {
        Seq::empty()
    } else {
        let init = menu_games(es.drop_last());
        let title = es.last().0;
        let game = game_title_of(title);
        if game.len() == 0 {
            init
        } else {
            match lookup(init, game) {
                Some(cur) => if cleaner(title, cur) {
                    with_entry(init, game, title)
                } else {
                    init
                },
                None => with_entry(init, game, title),
            }
        }
    }
}

fn is_cleaner(a: &str, b: &str) -> (r: bool)
    ensures
        r == cleaner(a@, b@),
{
    let fa: usize = count(a, '[');
    let fb: usize = count(b, '[');
    fa < fb || (fa == fb && a.as_bytes().len() < b.as_bytes().len())
}

/// The games of the listing, each with its cleanest title.
pub fn games_for_menu(es: &Vec<(String, String)>) -> (v: Vec<(String, String)>)
    ensures
        entries(v@) == menu_games(entries(es@)),
{
    let ghost all = entries(es@);
    let mut v: Vec<(String, String)> = Vec::new();
    let mut i: usize = 0;
    assert(entries(v@) =~= menu_games(all.take(0)));
    while i < es.len()
        invariant
            all == entries(es@),
            i <= es@.len(),
            entries(v@) == menu_games(all.take(i as int)),
        decreases es@.len() - i,
    {
        proof {
            assert(all.take(i + 1).drop_last() =~= all.take(i as int));
            assert(all[i as int] == (es@[i as int].0@, es@[i as int].1@));
        }
        let title = es[i].0.as_str();
        let game = game_title(title);
        if !game.as_str().is_empty() {
            let take = match find_key(&v, game.as_str()) {
                Some(k) => {
                    assert(entries(v@)[k as int] == (v@[k as int].0@, v@[k as int].1@));
                    is_cleaner(title, v[k].1.as_str())
                },
                None => true,
            };
            if take {
                put(&mut v, game, title.to_owned());
            }
        }
        i += 1;
    }
    assert(all.take(i as int) =~= all);
    v
}

/// Games in the order of their titles in lower case.
pub open spec fn sorted_games(s: Entries) -> Entries {
    arranged(
        s,
        stable_order(
            s.len(),
            by_texts(s.map_values(|e: (Seq<char>, Seq<char>)| lowered(e.1))),
        ),
    )
}

/// The lines of the menu: the title and the game's key.
pub open spec fn menu_lines(s: Entries) -> Seq<Seq<char>> {
    s.map_values(|e: (Seq<char>, Seq<char>)| e.1 + "\t"@ + e.0)
}

/// The lines of the menu, sorted by title.
pub fn menu_text(games: &Vec<(String, String)>) -> (r: String)
    ensures
        r@ == joined(menu_lines(sorted_games(entries(games@))), "\n"@),
{
    let ghost all = entries(games@);
    let ghost goal = all.map_values(|e: (Seq<char>, Seq<char>)| lowered(e.1));
    let mut keys: Vec<String> = Vec::new();
    let mut i: usize = 0;
    while i < games.len()
        invariant
            all == entries(games@),
            goal == all.map_values(|e: (Seq<char>, Seq<char>)| lowered(e.1)),
            i <= games@.len(),
            keys@.len() == i,
            forall|k: int| 0 <= k < i ==> (#[trigger] keys@[k])@ == goal[k],
        decreases games@.len() - i,
    {
        keys.push(to_lowercase(games[i].1.as_str()));
        i += 1;
    }
    assert(texts(keys@) =~= goal);
    let p = order_by_texts(&keys);
    let sorted = arrange_entries(games, &p);
    let ghost out = sorted_games(all);
    assert(entries(sorted@) =~= out);
    assert(entries(sorted@).len() == sorted@.len());
    let mut ls: Vec<String> = Vec::new();
    let mut k: usize = 0;
    while k < sorted.len()
        invariant
            entries(sorted@) == out,
            out.len() == sorted@.len(),
            k <= sorted@.len(),
            ls@.len() == k,
            forall|m: int| 0 <= m < k ==> (#[trigger] ls@[m])@ == menu_lines(out)[m],
        decreases sorted@.len() - k,
    {
        assert(entries(sorted@)[k as int] == out[k as int]);
        let line = append(append(sorted[k].1.as_str(), "\t").as_str(), sorted[k].0.as_str());
        ls.push(line);
        k += 1;
    }
    assert(texts(ls@) =~= menu_lines(out));
    join(&ls, "\n")
}

/// The entries of a game.
pub open spec fn offers_of_game(es: Entries, game: Seq<char>) -> Seq<Offer>
    decreases es.len(),
{
    if es.len() == 0 {
        Seq::empty()
    } else if game_title_of(es.last().0) == game {
        offers_of_game(es.drop_last(), game).push(tosec_offer(es.last()))
    } else {
        offers_of_game(es.drop_last(), game)
    }
}

/// The line of the menu that an answer is: the title that was shown, and the key of the
/// game behind its last tab.
pub open spec fn line_chosen(answer: Seq<char>) -> Option<(Seq<char>, Seq<char>)> {
    let s = trimmed(answer);
    if s.len() == 0 {
        None
    } else {
        Some((split_all(s, '\t')[0], split_all(s, '\t').last()))
    }
}

/// The game of the menu that was chosen; `None` when none was.
pub fn game_chosen(answer: &str) -> (r: Option<(String, String)>)
    ensures
        match r {
            Some((title, key)) => line_chosen(answer@) == Some((title@, key@)),
            None => line_chosen(answer@) is None,
        },
{
    let s = trim(answer);
    if s.as_str().is_empty() {
        return None;
    }
    let parts = split(s.as_str(), '\t');
    let ghost all = split_all(s@, '\t');
    proof {
        assert(all.len() > 0);
        assert(all.len() == parts@.len());
        assert(all[0] == parts@[0]@);
        assert(all.last() == parts@[parts@.len() - 1]@);
    }
    Some((parts[0].clone(), parts[parts.len() - 1].clone()))
}

/// The best release of a game in the listing.
pub fn release_of_game(es: &Vec<(String, String)>, game: &str) -> (r: Vec<Item>)
    ensures
        offers(r@) == best_release_of(offers_of_game(entries(es@), game@)),
{
    let ghost all = entries(es@);
    let mut v: Vec<Item> = Vec::new();
    let mut i: usize = 0;
    assert(offers(v@) =~= offers_of_game(all.take(0), game@));
    while i < es.len()
        invariant
            all == entries(es@),
            i <= es@.len(),
            offers(v@) == offers_of_game(all.take(i as int), game@),
        decreases es@.len() - i,
    {
        proof {
            assert(all.take(i + 1).drop_last() =~= all.take(i as int));
            assert(all[i as int] == (es@[i as int].0@, es@[i as int].1@));
        }
        if same(game_title(es[i].0.as_str()).as_str(), game) {
            let it: Item = (Handle { src: "tosec", reff: es[i].1.clone() }, es[i].0.clone());
            assert(offer(it) =~= tosec_offer(all[i as int]));
            assert(offers(v@.push(it)) =~= offers(v@).push(offer(it)));
            v.push(it);
        }
        i += 1;
    }
    assert(all.take(i as int) =~= all);
    best_release(v)
}

// ---- what is booted ---------------------------------------------------------------------------------

/// The first local file of an index that is among the given ones.
pub open spec fn first_downloaded(
    rs: Seq<Seq<Seq<char>>>,
    files: Seq<Seq<char>>,
    from: int,
) -> Option<Seq<char>>
    decreases rs.len() - from,
{
    if from < 0 || from >= rs.len() {
        None
    } else {
        let f = rs[from];
        if f.len() >= 3 && f[1] == "local"@ && files.contains(f[2]) {
            Some(f[2])
        } else {
            first_downloaded(rs, files, from + 1)
        }
    }
}

/// The file that the index boots, of those that were downloaded.
pub fn boot_in_index(index: &str, files: &Vec<String>) -> (r: Option<String>)
    ensures
        match r {
            Some(f) => first_downloaded(records_of(index@), texts(files@), 0) == Some(f@),
            None => first_downloaded(records_of(index@), texts(files@), 0) is None,
        },
{
    let rs = records(index);
    let ghost all = fields_view(rs@);
    let ghost fs = texts(files@);
    let mut i: usize = 0;
    assert(all.len() == rs@.len());
    while i < rs.len()
        invariant
            all == fields_view(rs@),
            all == records_of(index@),
            all.len() == rs@.len(),
            fs == texts(files@),
            i <= rs@.len(),
            first_downloaded(all, fs, 0) == first_downloaded(all, fs, i as int),
        decreases rs@.len() - i,
    {
        let f = &rs[i];
        assert(all[i as int] == texts(f@));
        if f.len() >= 3 {
            assert(texts(f@)[1] == f@[1]@ && texts(f@)[2] == f@[2]@);
            if same(f[1].as_str(), "local") && is_one_of(files, f[2].as_str()) {
                return Some(f[2].clone());
            }
        }
        i += 1;
    }
    None
}

pub fn is_one_of(files: &Vec<String>, name: &str) -> (r: bool)
    ensures
        r == texts(files@).contains(name@),
{
    let mut i: usize = 0;
    while i < files.len()
        invariant
            i <= files@.len(),
            forall|k: int| 0 <= k < i ==> texts(files@)[k] != name@,
        decreases files@.len() - i,
    {
        assert(texts(files@)[i as int] == files@[i as int]@);
        if same(files[i].as_str(), name) {
            return true;
        }
        i += 1;
    }
    assert(texts(files@).len() == files@.len());
    false
}

/// The disk and the side that a file's name speaks of, underscores read as spaces.
pub open spec fn load_place(name: Seq<char>) -> (i32, i32) {
    let spaced = replaced(name, "_"@, " "@);
    (disk_number(spaced), side_number(spaced))
}

pub open spec fn loads_before(a: (i32, i32), b: (i32, i32)) -> bool {
    a.0 < b.0 || (a.0 == b.0 && a.1 < b.1)
}

/// The first of the files with the lowest disk and side.
pub open spec fn lowest(names: Seq<Seq<char>>) -> Seq<char>
    decreases names.len(),
{
    if names.len() <= 1 {
        names[0]
    } else {
        let init = lowest(names.drop_last());
        if loads_before(load_place(names.last()), load_place(init)) {
            names.last()
        } else {
            init
        }
    }
}

fn place_of_file(name: &str) -> (r: (i32, i32))
    ensures
        r == load_place(name@),
{
    proof {
        reveal_strlit("_");
    }
    let spaced = replace(name, "_", " ");
    (disk_no(spaced.as_str()), side_no(spaced.as_str()))
}

/// The file to boot when the index does not say: the lowest disk and side.
pub fn boot_fallback(files: &Vec<String>) -> (r: String)
    requires
        files@.len() > 0,
    ensures
        r@ == lowest(texts(files@)),
{
    let ghost all = texts(files@);
    let mut at: usize = 0;
    let mut place: (i32, i32) = place_of_file(files[0].as_str());
    let mut i: usize = 1;
    assert(all.len() == files@.len());
    assert(all[0] == files@[0]@);
    assert(all.take(1)[0] == all[0]);
    while i < files.len()
        invariant
            all == texts(files@),
            all.len() == files@.len(),
            1 <= i <= files@.len(),
            at < i,
            all[at as int] == lowest(all.take(i as int)),
            place == load_place(all[at as int]),
        decreases files@.len() - i,
    {
        proof {
            assert(all.take(i + 1).drop_last() =~= all.take(i as int));
            assert(all[i as int] == files@[i as int]@);
        }
        let p: (i32, i32) = place_of_file(files[i].as_str());
        if p.0 < place.0 || (p.0 == place.0 && p.1 < place.1) {
            at = i;
            place = p;
        }
        i += 1;
    }
    assert(all.take(i as int) =~= all);
    assert(all[at as int] == files@[at as int]@);
    files[at].clone()
}

// ---- laws ------------------------------------------------------------------------------------------

/// An entry that a table can hold: no tab in its key, no newline in it, and no
/// carriage return at its end.
pub open spec fn fits_entry(e: (Seq<char>, Seq<char>)) -> bool {
    &&& forall|i: int| 0 <= i < e.0.len() ==> #[trigger] e.0[i] != '\t' && e.0[i] != '\n'
    &&& forall|i: int| 0 <= i < e.1.len() ==> #[trigger] e.1[i] != '\n'
    &&& !(e.1.len() > 0 && e.1.last() == '\r')
}

proof fn lemma_entries_of_lines(s: Entries)
    requires
        forall|i: int| 0 <= i < s.len() ==> fits_entry(#[trigger] s[i]),
    ensures
        entries_of_lines(entry_records(s).map_values(|r: Seq<Seq<char>>| line_of(r))) == s,
    decreases s.len(),
{
    let ls = entry_records(s).map_values(|r: Seq<Seq<char>>| line_of(r));
    if s.len() > 0 {
        let init = s.drop_last();
        assert forall|i: int| 0 <= i < init.len() implies fits_entry(#[trigger] init[i]) by {
            assert(fits_entry(s[i]));
        }
        lemma_entries_of_lines(init);
        assert(ls.drop_last() =~= entry_records(init).map_values(
            |r: Seq<Seq<char>>| line_of(r),
        ));
        let e = s.last();
        assert(fits_entry(s[s.len() - 1]));
        lemma_entry_line(e);
        assert(ls.last() == line_of(seq![e.0, e.1]));
        assert(s =~= init.push(e));
    } else {
        assert(entries_of_lines(ls) =~= s);
    }
}

proof fn lemma_entry_line(e: (Seq<char>, Seq<char>))
    requires
        fits_entry(e),
    ensures
        line_of(seq![e.0, e.1]) == e.0 + seq!['\t'] + e.1,
        split_first(line_of(seq![e.0, e.1]), '\t') == Some(e),
        fits_line(line_of(seq![e.0, e.1])),
{
    let parts = seq![e.0, e.1];
    reveal_strlit("\t");
    assert("\t"@ =~= seq!['\t']);
    assert(parts.drop_last() =~= seq![e.0]);
    assert(joined(seq![e.0], "\t"@) == e.0);
    let l = line_of(parts);
    assert(l == e.0 + seq!['\t'] + e.1);
    let n = e.0.len() as int;
    assert forall|i: int| 0 <= i < n implies l[i] != '\t' by {
        assert(l[i] == e.0[i]);
    }
    lemma_char_from_at(l, '\t', 0, n);
    assert(l.take(n) =~= e.0);
    assert(l.skip(n + 1) =~= e.1);
    assert forall|i: int| 0 <= i < l.len() implies #[trigger] l[i] != '\n' by {
        if i < n {
            assert(l[i] == e.0[i]);
        } else if i > n {
            assert(l[i] == e.1[i - n - 1]);
        }
    }
    if e.1.len() > 0 {
        assert(l.last() == e.1.last());
    }
}

/// Entries that are written come back when they are read.
pub proof fn law_entries_come_back(s: Entries)
    requires
        forall|i: int| 0 <= i < s.len() ==> fits_entry(#[trigger] s[i]),
    ensures
        entries_of_lines(lines_of(table_text(entry_records(s)))) == s,
{
    let ls = entry_records(s).map_values(|r: Seq<Seq<char>>| line_of(r));
    assert forall|i: int| 0 <= i < ls.len() implies fits_line(#[trigger] ls[i]) by {
        assert(fits_entry(s[i]));
        lemma_entry_line(s[i]);
    }
    law_lines_come_back(ls);
    lemma_entries_of_lines(s);
}

// ---- what the listing keeps --------------------------------------------------------------------------------------------

/// A title keeps the link that it had first, but a usual disk image takes the place of one
/// with its grooves; a title that had none gets it; and only links to images of games count.
pub proof fn law_usual_images_are_preferred(s: Entries, href: Seq<char>, other: Seq<char>)
    ensures
        ({
            let d64 = has_part(href, "%5BD64%5D"@);
            let g64 = has_part(href, "%5BG64%5D"@);
            let game = has_part(href, "Games"@) && (d64 || g64);
            let title = link_title(href);
            let n = with_link(s, href);
            let url = "https:"@ + href;
            &&& !game ==> n == s
            &&& game && lookup(s, title) is None ==> lookup(n, title) == Some(url)
            &&& game && lookup(s, title) is Some && d64 && has_part(lookup(s, title)->0, "%5BG64%5D"@)
                ==> lookup(n, title) == Some(url)
            &&& lookup(s, title) is Some && !(d64 && has_part(lookup(s, title)->0, "%5BG64%5D"@))
                ==> n == s
            &&& other != title ==> lookup(n, other) == lookup(s, other)
        }),
{
    let url = "https:"@ + href;
    crate::keyed::law_last_entry_wins(s, link_title(href), url, other);
}

/// The listing is in the order of its titles, and keeps every entry.
pub proof fn law_listings_are_sorted(s: Entries, i: int, j: int, e: (Seq<char>, Seq<char>))
    ensures
        sorted_entries(s).len() == s.len(),
        0 <= i < j < s.len() ==> crate::order::text_le(sorted_entries(s)[i].0, sorted_entries(s)[j].0),
        sorted_entries(s).contains(e) <==> s.contains(e),
        sorted_games(s).len() == s.len(),
        0 <= i < j < s.len() ==> crate::order::text_le(
            lowered(sorted_games(s)[i].1),
            lowered(sorted_games(s)[j].1),
        ),
        sorted_games(s).contains(e) <==> s.contains(e),
{
    let keys = s.map_values(|e: (Seq<char>, Seq<char>)| e.0);
    let lows = s.map_values(|e: (Seq<char>, Seq<char>)| lowered(e.1));
    lemma_sorted_by(s, keys, i, j, e);
    lemma_sorted_by(s, lows, i, j, e);
}

proof fn lemma_sorted_by(
    s: Entries,
    keys: Seq<Seq<char>>,
    i: int,
    j: int,
    e: (Seq<char>, Seq<char>),
)
    requires
        keys.len() == s.len(),
    ensures
        ({
            let p = stable_order(s.len(), by_texts(keys));
            let t = arranged(s, p);
            &&& t.len() == s.len()
            &&& 0 <= i < j < s.len() ==> 0 <= p[i] < s.len() && 0 <= p[j] < s.len()
                && crate::order::text_le(keys[p[i]], keys[p[j]])
            &&& t.contains(e) <==> s.contains(e)
        }),
{
    crate::order::lemma_texts_compare(keys);
    let le = by_texts(keys);
    crate::order::law_order_exists(s.len(), le);
    let p = stable_order(s.len(), le);
    let t = arranged(s, p);
    if 0 <= i < j < s.len() {
        assert(crate::order::before(le, p[i], p[j]));
    }
    if s.contains(e) {
        let k = s.index_of(e);
        assert(p.contains(k));
        let n = p.index_of(k);
        assert(t[n] == e);
    }
    if t.contains(e) {
        let n = t.index_of(e);
        assert(s[p[n]] == e);
    }
}

/// A search finds the entries whose game's title has one of the words, in their order.
pub proof fn law_searches_find_titles(es: Entries, e: (Seq<char>, Seq<char>), words: Seq<Seq<char>>)
    ensures
        ({
            let found = exists|i: int|
                0 <= i < words.len() && has_part(game_title_of(e.0), #[trigger] words[i]);
            &&& found ==> offers_with(es.push(e), words) == offers_with(es, words).push(
                Offer { src: "tosec"@, reff: e.1, title: e.0 },
            )
            &&& !found ==> offers_with(es.push(e), words) == offers_with(es, words)
        }),
{
    assert(es.push(e).drop_last() =~= es);
}

/// The menu shows each game under the title with the fewest flags, and of those the shortest,
/// in bytes.
pub proof fn law_the_cleanest_title_is_shown(es: Entries, e: (Seq<char>, Seq<char>), other: Seq<char>)
    ensures
        ({
            let game = game_title_of(e.0);
            let before = menu_games(es);
            let after = menu_games(es.push(e));
            let flags = |t: Seq<char>| t.filter(|c: char| c == '[').len();
            let bytes = |t: Seq<char>| encode_utf8(t).len();
            &&& game.len() == 0 ==> after == before
            &&& game.len() > 0 && lookup(before, game) is None ==> lookup(after, game) == Some(e.0)
            &&& game.len() > 0 && lookup(before, game) is Some ==> (lookup(after, game) matches Some(t)
                && (t == e.0 || t == lookup(before, game)->0) && flags(t) <= flags(e.0) && flags(t)
                <= flags(lookup(before, game)->0) && (flags(t) == flags(e.0) ==> bytes(t) <= bytes(
                e.0,
            )) && (flags(t) == flags(lookup(before, game)->0) ==> bytes(t) <= bytes(
                lookup(before, game)->0,
            )))
            &&& other != game ==> lookup(after, other) == lookup(before, other)
        }),
{
    assert(es.push(e).drop_last() =~= es);
    let game = game_title_of(e.0);
    let before = menu_games(es);
    crate::keyed::law_last_entry_wins(before, game, e.0, other);
    crate::text::law_counts_are_of_occurrences(e.0, '[');
    if let Some(t) = lookup(before, game) {
        crate::text::law_counts_are_of_occurrences(t, '[');
    }
}

/// The entries of a game are those whose title has its key.
pub proof fn law_entries_of_a_game(es: Entries, e: (Seq<char>, Seq<char>), game: Seq<char>)
    ensures
        game_title_of(e.0) == game ==> offers_of_game(es.push(e), game) == offers_of_game(es, game).push(
            Offer { src: "tosec"@, reff: e.1, title: e.0 },
        ),
        game_title_of(e.0) != game ==> offers_of_game(es.push(e), game) == offers_of_game(es, game),
{
    assert(es.push(e).drop_last() =~= es);
}

/// Of several files the one is started with the lowest disk, and of those with the lowest
/// side.
pub proof fn law_the_lowest_disk_is_started(names: Seq<Seq<char>>, i: int)
    requires
        0 <= i < names.len(),
    ensures
        names.contains(lowest(names)),
        load_place(lowest(names)).0 <= load_place(names[i]).0,
        load_place(lowest(names)).0 == load_place(names[i]).0 ==> load_place(lowest(names)).1
            <= load_place(names[i]).1,
    decreases names.len(),
{
    if names.len() > 1 {
        let init = names.drop_last();
        law_the_lowest_disk_is_started(init, if i < init.len() {
            i
        } else {
            0
        });
        assert(names[init.index_of(lowest(init))] == lowest(init));
        assert(names[names.len() - 1] == names.last());
    }
}

/// The disk and the side of a file are those that its name speaks of, with spaces for
/// underscores.
pub proof fn law_file_names_are_read_with_spaces(name: Seq<char>)
    ensures
        load_place(name) == (
            disk_number(replaced(name, "_"@, " "@)),
            side_number(replaced(name, "_"@, " "@)),
        ),
{
}

/// The file that is booted after a download is the first local one of the index that was
/// among the downloaded.
pub proof fn law_downloaded_files_are_booted(rs: Seq<Seq<Seq<char>>>, files: Seq<Seq<char>>, from: int)
    requires
        0 <= from <= rs.len(),
    ensures
        match first_downloaded(rs, files, from) {
            Some(f) => files.contains(f) && exists|i: int|
                from <= i < rs.len() && (#[trigger] rs[i]).len() >= 3 && rs[i][1] == "local"@ && rs[i][2]
                    == f,
            None => forall|i: int|
                from <= i < rs.len() && (#[trigger] rs[i]).len() >= 3 && rs[i][1] == "local"@
                    ==> !files.contains(rs[i][2]),
        },
    decreases rs.len() - from,
{
    if from < rs.len() {
        let f = rs[from];
        if !(f.len() >= 3 && f[1] == "local"@ && files.contains(f[2])) {
            law_downloaded_files_are_booted(rs, files, from + 1);
            if let Some(g) = first_downloaded(rs, files, from + 1) {
                let i = choose|i: int|
                    from + 1 <= i < rs.len() && (#[trigger] rs[i]).len() >= 3 && rs[i][1] == "local"@
                        && rs[i][2] == g;
                assert(rs[i].len() >= 3);
            }
        }
    }
}

/// The choice in the menu is the line that was answered: what stands in front of its first
/// tab, and behind its last.
pub proof fn law_menu_lines_are_chosen(title: Seq<char>, game: Seq<char>)
    requires
        crate::table::fits_field(title),
        crate::table::fits_field(game),
        trimmed(title + seq!['\t'] + game) == title + seq!['\t'] + game,
    ensures
        line_chosen(title + seq!['\t'] + game) == Some((title, game)),
        menu_lines(seq![(game, title)]) == seq![title + seq!['\t'] + game],
{
    reveal_strlit("\t");
    assert("\t"@ =~= seq!['\t']);
    let f = seq![title, game];
    assert(f.drop_last() =~= seq![title]);
    assert(crate::table::line_of(seq![title]) == title);
    assert(crate::table::line_of(f) == title + seq!['\t'] + game);
    crate::table::law_fields_come_back(f);
    assert(menu_lines(seq![(game, title)]) =~= seq![title + seq!['\t'] + game]);
}

/// The title of a link is its last part, without the ending of an archive.
pub proof fn law_titles_of_links(name: Seq<char>, href: Seq<char>)
    requires
        after_last(href, "%2F"@) == name,
    ensures
        ({
            let t = unescaped(unquote_of(name));
            &&& !ends(t, ".zip"@) ==> link_title(href) == t
            &&& ends(t, ".zip"@) ==> link_title(href) + ".zip"@ == t
        }),
{
    let t = unescaped(unquote_of(name));
    if ends(t, ".zip"@) {
        assert(t.take(t.len() - ".zip"@.len()) + ".zip"@ =~= t);
    }
}

} // verus!
