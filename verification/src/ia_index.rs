//! The ranked index of the Internet Archive's games: those that the GameBase64
//! database has details of, by rating and then by downloads.

use crate::disk::text_or;
use crate::json::{
    field, items, json_array, json_field, json_i64, json_of_text, json_parse, json_str,
    json_tree, json_u64, text_in, trees, whole_in, Json,
};
use crate::order::{by_pairs, ints, is_order, order_by_pairs, stable_order};
use crate::pattern::Pattern;
use crate::releases::{collapse_spaces, collapsed};
use crate::sections::arranged;
use crate::table::{fields_view, table_text, write_records};
use crate::text::{append, int_text, number_text, opt_text, same, texts, trim, trimmed};
use crate::titles::{before_pattern, cut_pattern, game_title, game_title_of};
use crate::url::{form_text, pair_texts, urlencode};
use serde_json::Value;
use vstd::prelude::*;

verus! {

// ---- what GameBase64 says -----------------------------------------------------------------------

/// A row of the database: a game's name, its rating and its genre.
#[derive(Debug)]
pub struct GameRow {
    pub name: String,
    pub rating: Option<i64>,
    pub genre: Option<String>,
}

/// What is known of a game: its key, its rating and its genre.
#[derive(Debug)]
pub struct Details {
    pub canon: String,
    pub rating: i64,
    pub genre: String,
}

/// What is known of a game.
#[verifier::ext_equal]
pub struct Known {
    pub canon: Seq<char>,
    pub rating: i64,
    pub genre: Seq<char>,
}

impl View for Details {
    type V = Known;

    open spec fn view(&self) -> Known {
        Known { canon: self.canon@, rating: self.rating, genre: self.genre@ }
    }
}

pub open spec fn knowns(v: Seq<Details>) -> Seq<Known> {
    v.map_values(|d: Details| d@)
}

/// A rating; none and negative ones count as zero.
pub open spec fn clean_rating(r: Option<i64>) -> i64 {
    match r {
        Some(n) => if n > 0 {
            n
        } else {
            0
        },
        None => 0,
    }
}

/// A genre; what stands for none is empty.
pub open spec fn clean_genre(g: Option<Seq<char>>) -> Seq<char> {
    match g {
        Some(s) => if s == "(None)"@ || s == "(Unknown)"@ {
            Seq::empty()
        } else {
            s
        },
        None => Seq::empty(),
    }
}

/// The place of a game's key.
pub open spec fn known_at(ks: Seq<Known>, canon: Seq<char>, from: int) -> Option<int>
    decreases ks.len() - from,
{
    if from < 0 || from >= ks.len() {
        None
    } else if ks[from].canon == canon {
        Some(from)
    } else {
        known_at(ks, canon, from + 1)
    }
}

/// What is known after one more row: the better rating, and the first genre there
/// is.
pub open spec fn learned(ks: Seq<Known>, name: Seq<char>, rating: Option<i64>, genre: Option<Seq<char>>) -> Seq<
    Known,
> {
    let canon = game_title_of(name);
    let r = clean_rating(rating);
    let g = clean_genre(genre);
    if name.len() == 0 || canon.len() == 0 {
        ks
    } else {
        match known_at(ks, canon, 0) {
            Some(i) => ks.update(
                i,
                Known {
                    canon,
                    rating: if ks[i].rating >= r {
                        ks[i].rating
                    } else {
                        r
                    },
                    genre: if ks[i].genre.len() == 0 {
                        g
                    } else {
                        ks[i].genre
                    },
                },
            ),
            None => ks.push(Known { canon, rating: r, genre: g }),
        }
    }
}

/// What rows say of the games.
pub open spec fn learned_all(rows: Seq<GameRow>) -> Seq<Known>
    decreases rows.len(),
{
    if rows.len() == 0 {
        Seq::empty()
    } else {
        let r = rows.last();
        learned(learned_all(rows.drop_last()), r.name@, r.rating, opt_text(r.genre))
    }
}

/// The place of a game's key.
pub fn find_game(v: &Vec<Details>, canon: &str) -> (r: Option<usize>)
    ensures
        match r {
            Some(i) => known_at(knowns(v@), canon@, 0) == Some(i as int) && i < v@.len(),
            None => known_at(knowns(v@), canon@, 0) is None,
        },
{
    let mut i: usize = 0;
    while i < v.len()
        invariant
            i <= v@.len(),
            known_at(knowns(v@), canon@, 0) == known_at(knowns(v@), canon@, i as int),
        decreases v@.len() - i,
    {
        assert(knowns(v@)[i as int] == v@[i as int]@);
        if same(v[i].canon.as_str(), canon) {
            return Some(i);
        }
        i += 1;
    }
    None
}

fn learn(v: &mut Vec<Details>, row: &GameRow)
    ensures
        knowns(final(v)@) == learned(knowns(old(v)@), row.name@, row.rating, opt_text(row.genre)),
{
    let ghost was = v@;
    if row.name.as_str().is_empty() {
        return ;
    }
    let canon = game_title(row.name.as_str());
    if canon.as_str().is_empty() {
        return ;
    }
    let r: i64 = match row.rating {
        Some(n) => if n > 0 {
            n
        } else {
            0
        },
        None => 0,
    };
    let g = match &row.genre {
        Some(s) => if same(s.as_str(), "(None)") || same(s.as_str(), "(Unknown)") {
            String::new()
        } else {
            s.clone()
        },
        None => String::new(),
    };
    match find_game(v, canon.as_str()) {
        Some(i) => {
            assert(knowns(was)[i as int] == was[i as int]@);
            let rating: i64 = if v[i].rating >= r {
                v[i].rating
            } else {
                r
            };
            let genre = if v[i].genre.as_str().is_empty() {
                g
            } else {
                v[i].genre.clone()
            };
            let d = Details { canon, rating, genre };
            v.set(i, d);
            assert(knowns(v@) =~= knowns(was).update(i as int, d@));
        },
        None => {
            let d = Details { canon, rating: r, genre: g };
            v.push(d);
            assert(knowns(v@) =~= knowns(was).push(d@));
        },
    }
}

/// What the rows of the database say of the games.
pub fn gb64_meta(rows: &Vec<GameRow>) -> (v: Vec<Details>)
    ensures
        knowns(v@) == learned_all(rows@),
{
    let mut v: Vec<Details> = Vec::new();
    let mut i: usize = 0;
    assert(knowns(v@) =~= learned_all(rows@.take(0)));
    while i < rows.len()
        invariant
            i <= rows@.len(),
            knowns(v@) == learned_all(rows@.take(i as int)),
        decreases rows@.len() - i,
    {
        assert(rows@.take(i + 1).drop_last() =~= rows@.take(i as int));
        learn(&mut v, &rows[i]);
        i += 1;
    }
    assert(rows@.take(i as int) =~= rows@);
    v
}

// ---- what the archive lists --------------------------------------------------------------------------

/// An item of the archive's collection.
#[derive(Debug)]
pub struct IaItem {
    pub ident: String,
    pub title: String,
    pub downloads: i64,
}

/// An item of the archive's collection.
#[verifier::ext_equal]
pub struct Listed {
    pub ident: Seq<char>,
    pub title: Seq<char>,
    pub downloads: i64,
}

impl View for IaItem {
    type V = Listed;

    open spec fn view(&self) -> Listed {
        Listed { ident: self.ident@, title: self.title@, downloads: self.downloads }
    }
}

pub open spec fn listed(v: Seq<IaItem>) -> Seq<Listed> {
    v.map_values(|i: IaItem| i@)
}

/// The item that a value of the listing is; its identifier stands in for an empty
/// or missing title.
pub open spec fn listed_of(j: Json) -> Listed {
    let ident = text_or(text_in(field(j, "identifier"@)), Seq::empty());
    let title = text_or(text_in(field(j, "title"@)), Seq::empty());
    Listed {
        ident,
        title: if title.len() == 0 {
            ident
        } else {
            title
        },
        downloads: match whole_in(field(j, "downloads"@), i64::MIN as int, i64::MAX as int) {
            Some(n) => n as i64,
            None => 0,
        },
    }
}

/// A page of the listing: its items, the size of the whole, and where to go on.
#[derive(Debug)]
pub struct Page {
    pub items: Vec<IaItem>,
    pub total: u64,
    pub cursor: Option<String>,
}

impl Page {
    /// The page is what an answer says.
    pub open spec fn is_page(self, j: Json) -> bool {
        &&& listed(self.items@) == items(field(j, "items"@)).map_values(|x: Json| listed_of(x))
        &&& self.total == match whole_in(field(j, "total"@), 0, u64::MAX as int) {
            Some(n) => n as u64,
            None => 0,
        }
        &&& match self.cursor {
            Some(c) => text_in(field(j, "cursor"@)) == Some(c@),
            None => text_in(field(j, "cursor"@)) is None,
        }
    }
}

fn text_or_empty(v: &Value, key: &str) -> (s: String)
    ensures
        s@ == text_or(text_in(field(json_tree(*v), key@)), Seq::empty()),
{
    match json_str(json_field(v, key)) {
        Some(s) => s.to_owned(),
        None => String::new(),
    }
}

fn read_item(v: &Value) -> (r: IaItem)
    ensures
        r@ == listed_of(json_tree(*v)),
{
    let ident = text_or_empty(v, "identifier");
    let title = text_or_empty(v, "title");
    let title = if title.as_str().is_empty() {
        ident.clone()
    } else {
        title
    };
    let downloads: i64 = match json_i64(json_field(v, "downloads")) {
        Some(n) => n,
        None => 0,
    };
    IaItem { ident, title, downloads }
}

/// Reads a page from a parsed answer.
pub fn page_in(v: &Value) -> (p: Page)
    ensures
        p.is_page(json_tree(*v)),
{
    let ghost j = json_tree(*v);
    let mut its: Vec<IaItem> = Vec::new();
    match json_array(json_field(v, "items")) {
        Some(list) => {
            let mut i: usize = 0;
            while i < list.len()
                invariant
                    i <= list@.len(),
                    its@.len() == i,
                    forall|k: int|
                        0 <= k < i ==> (#[trigger] its@[k])@ == listed_of(json_tree(list@[k])),
                decreases list@.len() - i,
            {
                its.push(read_item(&list[i]));
                i += 1;
            }
            assert(listed(its@) =~= trees(list@).map_values(|x: Json| listed_of(x)));
        },
        None => {
            assert(listed(its@) =~= items(field(j, "items"@)).map_values(|x: Json| listed_of(x)));
        },
    }
    let total: u64 = match json_u64(json_field(v, "total")) {
        Some(n) => n,
        None => 0,
    };
    let cursor = match json_str(json_field(v, "cursor")) {
        Some(s) => Some(s.to_owned()),
        None => None,
    };
    Page { items: its, total, cursor }
}

/// Reads a page of the listing.
pub fn read_page(text: &str) -> (r: Result<Page, serde_json::Error>)
    ensures
        match r {
            Ok(p) => json_of_text(text@) is Some && p.is_page(json_of_text(text@)->0),
            Err(_) => json_of_text(text@) is None,
        },
{
    match json_parse(text) {
        Ok(v) => Ok(page_in(&v)),
        Err(e) => Err(e),
    }
}

/// The form that asks for a page.
pub open spec fn page_form(cursor: Option<Seq<char>>) -> Seq<(Seq<char>, Seq<char>)> {
    let first = seq![
        ("q"@, "collection:softwarelibrary_c64"@),
        ("fields"@, "title,identifier,downloads"@),
        ("count"@, "10000"@),
    ];
    match cursor {
        Some(c) => first.push(("cursor"@, c)),
        None => first,
    }
}

/// Where the scan goes on behind a page; `None` when it ends, which it does at a page
/// without items and at one that names no next.
pub fn next_page(p: &Page) -> (r: Option<String>)
    ensures
        opt_text(r) == if p.items@.len() == 0 {
            None
        } else {
            opt_text(p.cursor)
        },
{
    if p.items.len() == 0 {
        return None;
    }
    match &p.cursor {
        Some(c) => Some(c.clone()),
        None => None,
    }
}

/// The address of a page of the listing: the first, or the one at a cursor.
pub fn page_url(cursor: &Option<String>) -> (r: String)
    ensures
        r@ == "https://archive.org/services/search/v1/scrape?"@ + form_text(
            page_form(opt_text(*cursor)),
        ),
{
    let mut pairs: Vec<(&str, &str)> = Vec::new();
    pairs.push(("q", "collection:softwarelibrary_c64"));
    pairs.push(("fields", "title,identifier,downloads"));
    pairs.push(("count", "10000"));
    match cursor {
        Some(c) => pairs.push(("cursor", c.as_str())),
        None => {},
    }
    assert(pair_texts(pairs@) =~= page_form(opt_text(*cursor)));
    append("https://archive.org/services/search/v1/scrape?", urlencode(pairs.as_slice()).as_str())
}

// ---- the most downloaded item of each game -------------------------------------------------------------

/// The most downloaded item of a game so far.
#[derive(Debug)]
pub struct Top {
    pub canon: String,
    pub downloads: i64,
    pub display: String,
    pub ident: String,
}

/// The most downloaded item of a game so far.
#[verifier::ext_equal]
pub struct Leader {
    pub canon: Seq<char>,
    pub downloads: i64,
    pub display: Seq<char>,
    pub ident: Seq<char>,
}

impl View for Top {
    type V = Leader;

    open spec fn view(&self) -> Leader {
        Leader {
            canon: self.canon@,
            downloads: self.downloads,
            display: self.display@,
            ident: self.ident@,
        }
    }
}

pub open spec fn leaders(v: Seq<Top>) -> Seq<Leader> {
    v.map_values(|t: Top| t@)
}

/// The place of a game among the leaders.
pub open spec fn leader_at(ls: Seq<Leader>, canon: Seq<char>, from: int) -> Option<int>
    decreases ls.len() - from,
{
    if from < 0 || from >= ls.len() {
        None
    } else if ls[from].canon == canon {
        Some(from)
    } else {
        leader_at(ls, canon, from + 1)
    }
}

/// A title as it is shown: without the details in brackets, on one line.
pub open spec fn display_of(title: Seq<char>) -> Seq<char> {
    trimmed(collapsed(trimmed(before_pattern(title, Pattern::Bracket))))
}

/// The leaders after one more item: it counts when its game is known, and leads
/// when it has more downloads than the one before.
pub open spec fn led(ls: Seq<Leader>, ks: Seq<Known>, it: Listed) -> Seq<Leader> {
    let canon = game_title_of(it.title);
    let new = Leader {
        canon,
        downloads: it.downloads,
        display: display_of(it.title),
        ident: it.ident,
    };
    if known_at(ks, canon, 0) is None {
        ls
    } else {
        match leader_at(ls, canon, 0) {
            Some(i) => if it.downloads > ls[i].downloads {
                ls.update(i, new)
            } else {
                ls
            },
            None => ls.push(new),
        }
    }
}

pub open spec fn led_all(ls: Seq<Leader>, ks: Seq<Known>, its: Seq<Listed>) -> Seq<Leader>
    decreases its.len(),
{
    if its.len() == 0 {
        ls
    } else {
        led(led_all(ls, ks, its.drop_last()), ks, its.last())
    }
}

fn find_leader(v: &Vec<Top>, canon: &str) -> (r: Option<usize>)
    ensures
        match r {
            Some(i) => leader_at(leaders(v@), canon@, 0) == Some(i as int) && i < v@.len(),
            None => leader_at(leaders(v@), canon@, 0) is None,
        },
{
    let mut i: usize = 0;
    while i < v.len()
        invariant
            i <= v@.len(),
            leader_at(leaders(v@), canon@, 0) == leader_at(leaders(v@), canon@, i as int),
        decreases v@.len() - i,
    {
        assert(leaders(v@)[i as int] == v@[i as int]@);
        if same(v[i].canon.as_str(), canon) {
            return Some(i);
        }
        i += 1;
    }
    None
}

fn lead(best: &mut Vec<Top>, meta: &Vec<Details>, it: &IaItem)
    ensures
        leaders(final(best)@) == led(leaders(old(best)@), knowns(meta@), it@),
{
    let ghost was = best@;
    let canon = game_title(it.title.as_str());
    if find_game(meta, canon.as_str()).is_none() {
        return ;
    }
    let before = cut_pattern(it.title.as_str(), Pattern::Bracket);
    let display = trim(collapse_spaces(trim(before.as_str()).as_str()).as_str());
    match find_leader(best, canon.as_str()) {
        Some(i) => {
            assert(leaders(was)[i as int] == was[i as int]@);
            if it.downloads > best[i].downloads {
                let t = Top { canon, downloads: it.downloads, display, ident: it.ident.clone() };
                best.set(i, t);
                assert(leaders(best@) =~= leaders(was).update(i as int, t@));
            }
        },
        None => {
            let t = Top { canon, downloads: it.downloads, display, ident: it.ident.clone() };
            best.push(t);
            assert(leaders(best@) =~= leaders(was).push(t@));
        },
    }
}

/// Takes the items of a page into account.
pub fn scan_items(best: &mut Vec<Top>, meta: &Vec<Details>, its: &Vec<IaItem>)
    ensures
        leaders(final(best)@) == led_all(leaders(old(best)@), knowns(meta@), listed(its@)),
{
    let ghost start = leaders(best@);
    let ghost all = listed(its@);
    let ghost ks = knowns(meta@);
    let mut i: usize = 0;
    assert(all.take(0) =~= Seq::empty());
    while i < its.len()
        invariant
            all == listed(its@),
            ks == knowns(meta@),
            i <= its@.len(),
            leaders(best@) == led_all(start, ks, all.take(i as int)),
        decreases its@.len() - i,
    {
        proof {
            assert(all.take(i + 1).drop_last() =~= all.take(i as int));
            assert(all[i as int] == its@[i as int]@);
        }
        lead(best, meta, &its[i]);
        i += 1;
    }
    assert(all.take(i as int) =~= all);
}

// ---- the index ---------------------------------------------------------------------------------------------

/// The rating and the genre of a game; zero and none when it is not known.
pub open spec fn details_of(ks: Seq<Known>, canon: Seq<char>) -> (i64, Seq<char>) {
    match known_at(ks, canon, 0) {
        Some(i) => (ks[i].rating, ks[i].genre),
        None => (0, Seq::empty()),
    }
}

/// The record of a game in the index.
pub open spec fn index_record(ks: Seq<Known>, l: Leader) -> Seq<Seq<char>> {
    let d = details_of(ks, l.canon);
    seq![l.canon, number_text(d.0 as int), number_text(l.downloads as int), d.1, l.ident, l.display]
}

/// The sorting keys: the rating and then the downloads, the greater first.
pub open spec fn rank_keys(ks: Seq<Known>, ls: Seq<Leader>) -> Seq<(i64, i64)> {
    ls.map_values(
        |l: Leader| ((-1 - details_of(ks, l.canon).0) as i64, (-1 - l.downloads) as i64),
    )
}

/// The games in the order of their ranks.
pub open spec fn ranked(ks: Seq<Known>, ls: Seq<Leader>) -> Seq<Leader> {
    arranged(ls, stable_order(ls.len(), by_pairs(rank_keys(ks, ls))))
}

/// The text of the index.
pub open spec fn ia_index_of(ks: Seq<Known>, ls: Seq<Leader>) -> Seq<char> {
    table_text(ranked(ks, ls).map_values(|l: Leader| index_record(ks, l)))
}

fn game_details(meta: &Vec<Details>, canon: &str) -> (r: (i64, String))
    ensures
        (r.0, r.1@) == details_of(knowns(meta@), canon@),
{
    match find_game(meta, canon) {
        Some(i) => {
            assert(knowns(meta@)[i as int] == meta@[i as int]@);
            (meta[i].rating, meta[i].genre.clone())
        },
        None => (0, String::new()),
    }
}

/// The text of the index of these games.
pub fn ia_index_text(best: &Vec<Top>, meta: &Vec<Details>) -> (r: String)
    ensures
        r@ == ia_index_of(knowns(meta@), leaders(best@)),
{
    let ghost ks = knowns(meta@);
    let ghost ls = leaders(best@);
    let mut keys: Vec<(i64, i64)> = Vec::new();
    let mut i: usize = 0;
    while i < best.len()
        invariant
            ks == knowns(meta@),
            ls == leaders(best@),
            i <= best@.len(),
            keys@.len() == i,
            forall|k: int| 0 <= k < i ==> #[trigger] keys@[k] == rank_keys(ks, ls)[k],
        decreases best@.len() - i,
    {
        assert(ls[i as int] == best@[i as int]@);
        let d = game_details(meta, best[i].canon.as_str());
        keys.push((-1 - d.0, -1 - best[i].downloads));
        i += 1;
    }
    assert(keys@ =~= rank_keys(ks, ls));
    let p = order_by_pairs(&keys);
    let ghost sorted = ranked(ks, ls);
    let ghost goal = sorted.map_values(|l: Leader| index_record(ks, l));
    let mut rs: Vec<Vec<String>> = Vec::new();
    let mut n: usize = 0;
    assert(ints(p@).len() == p@.len());
    while n < p.len()
        invariant
            ks == knowns(meta@),
            ls == leaders(best@),
            is_order(best@.len(), by_pairs(keys@), ints(p@)),
            p@.len() == best@.len(),
            sorted == arranged(ls, ints(p@)),
            goal == sorted.map_values(|l: Leader| index_record(ks, l)),
            n <= p@.len(),
            rs@.len() == n,
            forall|k: int| 0 <= k < n ==> texts((#[trigger] rs@[k])@) == goal[k],
        decreases p@.len() - n,
    {
        assert(0 <= ints(p@)[n as int] < best@.len());
        assert(ints(p@)[n as int] == p@[n as int]);
        let t = &best[p[n]];
        assert(ls[p@[n as int] as int] == t@);
        let d = game_details(meta, t.canon.as_str());
        let mut f: Vec<String> = Vec::new();
        f.push(t.canon.clone());
        f.push(int_text(d.0));
        f.push(int_text(t.downloads));
        f.push(d.1);
        f.push(t.ident.clone());
        f.push(t.display.clone());
        assert(texts(f@) =~= goal[n as int]);
        rs.push(f);
        n += 1;
    }
    assert(fields_view(rs@) =~= goal);
    write_records(&rs)
}

// ---- laws ----------------------------------------------------------------------------------------------------

proof fn lemma_leader_at(ls: Seq<Leader>, canon: Seq<char>, from: int)
    requires
        0 <= from,
    ensures
        match leader_at(ls, canon, from) {
            Some(i) => from <= i < ls.len() && ls[i].canon == canon,
            None => forall|k: int| from <= k < ls.len() ==> ls[k].canon != canon,
        },
    decreases ls.len() - from,
{
    if from < ls.len() && ls[from].canon != canon {
        lemma_leader_at(ls, canon, from + 1);
    }
}

/// Each game leads once, and only games with details do.
pub open spec fn leads_once(ls: Seq<Leader>, ks: Seq<Known>) -> bool {
    &&& forall|i: int, j: int| 0 <= i < j < ls.len() ==> (#[trigger] ls[i]).canon != (
    #[trigger] ls[j]).canon
    &&& forall|i: int| 0 <= i < ls.len() ==> known_at(ks, (#[trigger] ls[i]).canon, 0) is Some
}

/// However many items are scanned, each game is listed once, and only games that
/// the database has details of are listed.
pub proof fn law_games_are_listed_once(ls: Seq<Leader>, ks: Seq<Known>, it: Listed)
    requires
        leads_once(ls, ks),
    ensures
        leads_once(led(ls, ks, it), ks),
{
    lemma_leader_at(ls, game_title_of(it.title), 0);
    let n = led(ls, ks, it);
    assert forall|i: int, j: int| 0 <= i < j < n.len() implies (#[trigger] n[i]).canon != (
    #[trigger] n[j]).canon by {
        if j < ls.len() {
            assert(ls[i].canon != ls[j].canon);
        }
    }
    assert forall|i: int| 0 <= i < n.len() implies known_at(ks, (#[trigger] n[i]).canon, 0) is Some by {
        if i < ls.len() {
            assert(known_at(ks, ls[i].canon, 0) is Some);
        }
    }
}

/// A listed game never loses downloads to a later item.
pub proof fn law_leader_has_most_downloads(ls: Seq<Leader>, ks: Seq<Known>, it: Listed)
    requires
        known_at(ks, game_title_of(it.title), 0) is Some,
    ensures
        ({
            let n = led(ls, ks, it);
            &&& leader_at(n, game_title_of(it.title), 0) is Some
            &&& forall|i: int|
                0 <= i < ls.len() ==> (#[trigger] n[i]).downloads >= ls[i].downloads && n[i].canon
                    == ls[i].canon
        }),
{
    let canon = game_title_of(it.title);
    lemma_leader_at(ls, canon, 0);
    let n = led(ls, ks, it);
    lemma_leader_at(n, canon, 0);
    if leader_at(n, canon, 0) is None {
        match leader_at(ls, canon, 0) {
            Some(i) => {
                assert(n[i].canon == canon);
            },
            None => {
                assert(n[ls.len() as int].canon == canon);
            },
        }
    }
}

/// Better rated games come first, and of equally rated ones the more downloaded.
pub proof fn law_index_is_ranked(ks: Seq<Known>, ls: Seq<Leader>, i: int, j: int)
    requires
        0 <= i < j < ls.len(),
    ensures
        ranked(ks, ls).len() == ls.len(),
        ({
            let (a, b) = (ranked(ks, ls)[i], ranked(ks, ls)[j]);
            let (ra, rb) = (details_of(ks, a.canon).0, details_of(ks, b.canon).0);
            ra > rb || (ra == rb && a.downloads >= b.downloads)
        }),
{
    let keys = rank_keys(ks, ls);
    let le = by_pairs(keys);
    crate::sections::lemma_order_below(ls.len(), keys);
    let p = stable_order(ls.len(), le);
    assert(crate::order::before(le, p[i], p[j]));
    assert(le(p[i], p[j]));
}

// ---- what is known of games, and who leads ---------------------------------------------------------------------------

proof fn lemma_known_at(ks: Seq<Known>, canon: Seq<char>, from: int)
    requires
        0 <= from <= ks.len(),
    ensures
        match known_at(ks, canon, from) {
            Some(i) => from <= i < ks.len() && ks[i].canon == canon && forall|k: int|
                from <= k < i ==> (#[trigger] ks[k]).canon != canon,
            None => forall|k: int| from <= k < ks.len() ==> (#[trigger] ks[k]).canon != canon,
        },
    decreases ks.len() - from,
{
    if from < ks.len() && ks[from].canon != canon {
        lemma_known_at(ks, canon, from + 1);
    }
}

/// One more row of the database: of a game that is known already the better rating is kept,
/// and its genre, unless it had none; a game that is not known yet is added. A rating below
/// zero counts as zero, and "(None)" and "(Unknown)" are no genres.
pub proof fn law_better_ratings_are_kept(
    ks: Seq<Known>,
    name: Seq<char>,
    rating: Option<i64>,
    genre: Option<Seq<char>>,
    i: int,
)
    requires
        name.len() > 0,
        game_title_of(name).len() > 0,
        0 <= i < ks.len(),
        forall|a: int, b: int| 0 <= a < b < ks.len() ==> (#[trigger] ks[a]).canon != (#[trigger] ks[b]).canon,
    ensures
        ({
            let n = learned(ks, name, rating, genre);
            let none = genre is None || genre->0 == "(None)"@ || genre->0 == "(Unknown)"@ || genre->0.len()
                == 0;
            let mine = ks[i].canon == game_title_of(name);
            &&& n[i].canon == ks[i].canon
            &&& n[i].rating >= ks[i].rating
            &&& !mine ==> n[i] == ks[i]
            &&& mine && rating is Some ==> n[i].rating >= rating->0
            &&& mine ==> n[i].rating == ks[i].rating || Some(n[i].rating) == rating || n[i].rating == 0
            &&& mine && ks[i].genre.len() > 0 ==> n[i].genre == ks[i].genre
            &&& mine && ks[i].genre.len() == 0 && none ==> n[i].genre.len() == 0
            &&& mine && ks[i].genre.len() == 0 && !none ==> n[i].genre == genre->0
            &&& mine ==> n.len() == ks.len()
        }),
{
    let canon = game_title_of(name);
    lemma_known_at(ks, canon, 0);
    if ks[i].canon == canon {
        let k = known_at(ks, canon, 0)->0;
        if k < i {
            assert(ks[k].canon != ks[i].canon);
        }
        if i < k {
            assert(ks[i].canon != ks[k].canon);
        }
    }
}

pub proof fn law_new_games_are_added(
    ks: Seq<Known>,
    name: Seq<char>,
    rating: Option<i64>,
    genre: Option<Seq<char>>,
)
    ensures
        ({
            let n = learned(ks, name, rating, genre);
            let canon = game_title_of(name);
            let none = genre is None || genre->0 == "(None)"@ || genre->0 == "(Unknown)"@;
            let fresh = name.len() > 0 && canon.len() > 0 && forall|i: int|
                0 <= i < ks.len() ==> (#[trigger] ks[i]).canon != canon;
            &&& name.len() == 0 || canon.len() == 0 ==> n == ks
            &&& fresh ==> n.len() == ks.len() + 1 && n.drop_last() == ks && n.last().canon == canon
            &&& fresh && (rating is None || rating->0 < 0) ==> n.last().rating == 0
            &&& fresh && rating is Some && rating->0 >= 0 ==> n.last().rating == rating->0
            &&& fresh && none ==> n.last().genre.len() == 0
            &&& fresh && !none ==> n.last().genre == genre->0
        }),
{
    let canon = game_title_of(name);
    lemma_known_at(ks, canon, 0);
    let n = learned(ks, name, rating, genre);
    if name.len() > 0 && canon.len() > 0 && known_at(ks, canon, 0) is None {
        assert(n.drop_last() =~= ks);
    }
    if let Some(i) = known_at(ks, canon, 0) {
        assert(ks[i].canon == canon);
    }
}

/// An item of the archive leads its game when the game is known and no item of it before had
/// as many downloads; else nothing changes.
pub proof fn law_more_downloads_lead(ls: Seq<Leader>, ks: Seq<Known>, it: Listed, i: int)
    requires
        leads_once(ls, ks),
        0 <= i < ls.len(),
    ensures
        ({
            let canon = game_title_of(it.title);
            let n = led(ls, ks, it);
            let known = exists|k: int| 0 <= k < ks.len() && (#[trigger] ks[k]).canon == canon;
            &&& !known ==> n == ls
            &&& ls[i].canon != canon ==> n[i] == ls[i]
            &&& ls[i].canon == canon && it.downloads <= ls[i].downloads ==> n[i] == ls[i]
            &&& ls[i].canon == canon && it.downloads > ls[i].downloads ==> n[i].ident == it.ident
                && n[i].downloads == it.downloads && n[i].display == display_of(it.title)
            &&& ls[i].canon == canon ==> n.len() == ls.len()
        }),
{
    let canon = game_title_of(it.title);
    lemma_known_at(ks, canon, 0);
    lemma_leader_at(ls, canon, 0);
    if ls[i].canon == canon {
        assert(known_at(ks, ls[i].canon, 0) is Some);
        let k = leader_at(ls, canon, 0)->0;
        if k < i {
            assert(ls[k].canon != ls[i].canon);
        }
        if i < k {
            assert(ls[i].canon != ls[k].canon);
        }
    }
    if let Some(k) = known_at(ks, canon, 0) {
        assert(ks[k].canon == canon);
    }
}

pub proof fn law_first_items_lead(ls: Seq<Leader>, ks: Seq<Known>, it: Listed, k: int)
    requires
        0 <= k < ks.len(),
        ks[k].canon == game_title_of(it.title),
        forall|i: int| 0 <= i < ls.len() ==> (#[trigger] ls[i]).canon != game_title_of(it.title),
    ensures
        led(ls, ks, it) == ls.push(
            Leader {
                canon: game_title_of(it.title),
                downloads: it.downloads,
                display: display_of(it.title),
                ident: it.ident,
            },
        ),
{
    lemma_known_at(ks, ks[k].canon, 0);
    lemma_leader_at(ls, ks[k].canon, 0);
}

/// A record of the ranked list: the key, the rating, the downloads, the genre, the identifier
/// and the title to show.
pub proof fn law_ranked_records(ks: Seq<Known>, l: Leader, k: int)
    requires
        0 <= k < ks.len(),
        ks[k].canon == l.canon,
        forall|j: int| 0 <= j < k ==> (#[trigger] ks[j]).canon != l.canon,
    ensures
        ({
            let r = index_record(ks, l);
            &&& r.len() == 6
            &&& r[0] == l.canon
            &&& crate::text::number_of(r[1]) == Some(ks[k].rating as int)
            &&& crate::text::number_of(r[2]) == Some(l.downloads as int)
            &&& r[3] == ks[k].genre
            &&& r[4] == l.ident
            &&& r[5] == l.display
        }),
{
    lemma_known_at(ks, l.canon, 0);
    crate::text::law_numbers_come_back(ks[k].rating as int);
    crate::text::law_numbers_come_back(l.downloads as int);
    let i = known_at(ks, l.canon, 0)->0;
    if i < k {
        assert(ks[i].canon != l.canon);
    }
    if k < i {
        assert(ks[k].canon != l.canon);
    }
}

/// No game is lost in ranking.
pub proof fn law_ranking_keeps_games(ks: Seq<Known>, ls: Seq<Leader>, l: Leader)
    ensures
        ranked(ks, ls).len() == ls.len(),
        ranked(ks, ls).contains(l) <==> ls.contains(l),
{
    let keys = rank_keys(ks, ls);
    crate::order::lemma_pairs_compare(keys);
    let le = by_pairs(keys);
    crate::order::law_order_exists(ls.len(), le);
    let p = stable_order(ls.len(), le);
    let r = ranked(ks, ls);
    if ls.contains(l) {
        let i = ls.index_of(l);
        assert(p.contains(i));
        let k = p.index_of(i);
        assert(r[k] == l);
    }
    if r.contains(l) {
        let k = r.index_of(l);
        assert(ls[p[k]] == l);
    }
}

/// An item of the listing is what its fields say; one without a title goes by its identifier,
/// and one without downloads has none.
pub proof fn law_items_of_the_listing(j: Json)
    ensures
        ({
            let it = listed_of(j);
            let ident = text_in(field(j, "identifier"@));
            let title = text_in(field(j, "title"@));
            &&& ident is Some ==> it.ident == ident->0
            &&& ident is None ==> it.ident.len() == 0
            &&& title is Some && title->0.len() > 0 ==> it.title == title->0
            &&& title is None || title->0.len() == 0 ==> it.title == it.ident
            &&& whole_in(field(j, "downloads"@), i64::MIN as int, i64::MAX as int) is None
                ==> it.downloads == 0
            &&& whole_in(field(j, "downloads"@), i64::MIN as int, i64::MAX as int) matches Some(n)
                ==> it.downloads == n
        }),
{
}

/// The listing is asked for the collection of the machine, in pages of ten thousand items with
/// their titles, identifiers and downloads, and from a place on where one is named.
pub proof fn law_questions_for_a_page(c: Seq<char>)
    ensures
        ({
            let f = page_form(None);
            &&& f.len() == 3
            &&& f[0] == ("q"@, "collection:"@ + "softwarelibrary_c64"@)
            &&& f[1] == ("fields"@, "title"@ + ","@ + "identifier"@ + ","@ + "downloads"@)
            &&& f[2].0 == "count"@ && crate::text::number_of(f[2].1) == Some(10000int)
            &&& page_form(Some(c)) == f.push(("cursor"@, c))
        }),
{
    reveal_strlit("collection:");
    reveal_strlit("softwarelibrary_c64");
    reveal_strlit("collection:softwarelibrary_c64");
    reveal_strlit("title");
    reveal_strlit(",");
    reveal_strlit("identifier");
    reveal_strlit("downloads");
    reveal_strlit("title,identifier,downloads");
    reveal_strlit("10000");
    let f = page_form(None);
    assert(f[0].1 =~= "collection:"@ + "softwarelibrary_c64"@);
    assert(f[1].1 =~= "title"@ + ","@ + "identifier"@ + ","@ + "downloads"@);
    let t = "10000"@;
    assert(t =~= seq!['1', '0', '0', '0', '0']);
    assert(t.drop_last() =~= seq!['1', '0', '0', '0']);
    assert(t.drop_last().drop_last() =~= seq!['1', '0', '0']);
    assert(t.drop_last().drop_last().drop_last() =~= seq!['1', '0']);
    assert(t.drop_last().drop_last().drop_last().drop_last() =~= seq!['1']);
    assert(t.drop_last().drop_last().drop_last().drop_last().drop_last() =~= Seq::empty());
    reveal_with_fuel(crate::text::digits_value, 6);
    assert(crate::text::all_digits(t));
}

} // verus!
