//! What the GameBase64 database says of a game: finding it by name, and its details
//! made ready to be shown.

use crate::formats::{
    begins_with, decode_lenient, from_utf8, gunzip, gunzipped, has_magic, lenient_text,
};
use crate::keyed::entries;
use crate::order::{
    before, by_texts, compares, ints, law_order_exists, lemma_texts_compare, order_by,
    stable_order, text_le, text_no_greater,
};
use crate::pattern::{find_pattern, matched, matched_texts, matches_of, Pattern};
use crate::releases::{collapse_spaces, collapsed};
use crate::search::exact_upto;
use crate::sections::arranged;
use crate::text::{
    append, chars_of, int_text, join, joined, number_of, number_text, opt_text, parse_i64, same,
    string_range, texts, trim, trimmed,
};
use crate::titles::{before_pattern, cut_pattern, norm, norm_of};
use vstd::prelude::*;
use vstd::utf8::{decode_utf8, encode_utf8, valid_utf8};

verus! {

// ---- cells ------------------------------------------------------------------------------------------

/// A cell of the database. A number that is not whole comes as it is written.
#[derive(Debug)]
pub enum Cell {
    Null,
    Integer(i64),
    Real(String),
    Text(Vec<u8>),
    Blob(Vec<u8>),
}

/// The text of a cell.
pub open spec fn cell_text(c: Cell) -> Option<Seq<char>> {
    match c {
        Cell::Null => None,
        Cell::Integer(i) => Some(number_text(i as int)),
        Cell::Real(s) => Some(s@),
        Cell::Text(b) => Some(lenient_text(b@)),
        Cell::Blob(b) => Some(lenient_text(b@)),
    }
}

/// The number that a text is, within an `i64`.
pub open spec fn whole_number(s: Seq<char>) -> Option<i64> {
    match number_of(s) {
        Some(n) => if i64::MIN <= n <= i64::MAX {
            Some(n as i64)
        } else {
            None
        },
        None => None,
    }
}

/// The number in a cell.
pub open spec fn cell_number(c: Cell) -> Option<i64> {
    match c {
        Cell::Integer(i) => Some(i),
        Cell::Text(b) => if valid_utf8(b@) {
            whole_number(trimmed(decode_utf8(b@)))
        } else {
            None
        },
        _ => None,
    }
}

/// The text of a cell: as UTF-8 where it is that, else as Windows-1252.
pub fn decode_text(c: &Cell) -> (r: Option<String>)
    ensures
        opt_text(r) == cell_text(*c),
{
    match c {
        Cell::Null => None,
        Cell::Integer(i) => Some(int_text(*i)),
        Cell::Real(s) => Some(s.clone()),
        Cell::Text(b) => Some(decode_lenient(b)),
        Cell::Blob(b) => Some(decode_lenient(b)),
    }
}

/// The number in a cell.
pub fn decode_int(c: &Cell) -> (r: Option<i64>)
    ensures
        r == cell_number(*c),
{
    match c {
        Cell::Integer(i) => Some(*i),
        Cell::Text(b) => match from_utf8(b) {
            Some(s) => parse_i64(trim(s.as_str()).as_str()),
            None => None,
        },
        _ => None,
    }
}

// ---- the file ----------------------------------------------------------------------------------------

/// The first bytes of gzip data.
pub open spec fn gzip_magic() -> Seq<u8> {
    seq![0x1f, 0x8b]
}

/// The first bytes of a SQLite database: "SQLite format 3" and a zero byte.
pub open spec fn sqlite_magic() -> Seq<u8> {
    seq![0x53, 0x51, 0x4c, 0x69, 0x74, 0x65, 0x20, 0x66, 0x6f, 0x72, 0x6d, 0x61, 0x74, 0x20, 0x33, 0x00]
}

/// What a download of the database came to.
#[derive(Debug)]
pub enum Unpacked {
    Database(Vec<u8>),
    /// The gzip data was damaged, and why.
    Damaged(String),
    /// Neither gzip data nor a database.
    Unexpected,
}

/// Makes a database file of a download, which may still be packed or not: its
/// first bytes tell.
pub fn unpack_db(data: Vec<u8>) -> (r: Unpacked)
    ensures
        if has_magic(data@, gzip_magic()) {
            match gunzipped(data@) {
                Some(blob) => r matches Unpacked::Database(b) && b@ == blob,
                None => r is Damaged,
            }
        } else if has_magic(data@, sqlite_magic()) {
            r matches Unpacked::Database(b) && b@ == data@
        } else {
            r is Unexpected
        },
{
    let mut gzip: Vec<u8> = Vec::new();
    gzip.push(0x1f);
    gzip.push(0x8b);
    assert(gzip@ =~= gzip_magic());
    if begins_with(&data, &gzip) {
        return match gunzip(&data) {
            Ok(blob) => Unpacked::Database(blob),
            Err(e) => Unpacked::Damaged(e),
        };
    }
    let sqlite: Vec<u8> = vec![
        0x53, 0x51, 0x4c, 0x69, 0x74, 0x65, 0x20, 0x66, 0x6f, 0x72, 0x6d, 0x61, 0x74, 0x20, 0x33, 0x00,
    ];
    assert(sqlite@ =~= sqlite_magic());
    if begins_with(&data, &sqlite) {
        Unpacked::Database(data)
    } else {
        Unpacked::Unexpected
    }
}

// ---- finding a game ---------------------------------------------------------------------------------------

/// A game that a query of the database found.
#[derive(Debug)]
pub struct Hit {
    pub id: i64,
    pub name: String,
    pub rating: i64,
}

/// A game that a query found.
#[verifier::ext_equal]
pub struct Found {
    pub id: i64,
    pub name: Seq<char>,
    pub rating: i64,
}

impl View for Hit {
    type V = Found;

    open spec fn view(&self) -> Found {
        Found { id: self.id, name: self.name@, rating: self.rating }
    }
}

pub open spec fn hits(v: Seq<Hit>) -> Seq<Found> {
    v.map_values(|h: Hit| h@)
}

/// A pattern that finds a text anywhere in a name.
pub open spec fn like(t: Seq<char>) -> Seq<char> {
    "%"@ + t + "%"@
}

/// The patterns for the words of a query, those of more than one byte.
pub open spec fn word_patterns(ws: Seq<Seq<char>>) -> Seq<Seq<char>>
    decreases ws.len(),
{
    if ws.len() == 0 {
        Seq::empty()
    } else if encode_utf8(ws.last()).len() > 1 {
        word_patterns(ws.drop_last()).push(like(ws.last()))
    } else {
        word_patterns(ws.drop_last())
    }
}

fn make_like(t: &str) -> (r: String)
    ensures
        r@ == like(t@),
{
    append(append("%", t).as_str(), "%")
}

/// The pattern for a whole query.
pub fn query_pattern(query: &str) -> (r: String)
    ensures
        r@ == like(query@),
{
    make_like(query)
}

/// The patterns for words.
pub fn patterns_of(words: &Vec<String>) -> (r: Vec<String>)
    ensures
        texts(r@) == word_patterns(texts(words@)),
{
    let ghost ws = texts(words@);
    let mut r: Vec<String> = Vec::new();
    let mut i: usize = 0;
    assert(texts(r@) =~= word_patterns(ws.take(0)));
    while i < words.len()
        invariant
            ws == texts(words@),
            i <= words@.len(),
            texts(r@) == word_patterns(ws.take(i as int)),
        decreases words@.len() - i,
    {
        proof {
            assert(ws.take(i + 1).drop_last() =~= ws.take(i as int));
            assert(ws[i as int] == words@[i as int]@);
        }
        if words[i].as_str().as_bytes().len() > 1 {
            let p = make_like(words[i].as_str());
            assert(texts(r@.push(p)) =~= texts(r@).push(p@));
            r.push(p);
        }
        i += 1;
    }
    assert(ws.take(i as int) =~= ws);
    r
}

/// The patterns that a query falls back to: its words.
pub fn fallback_patterns(query: &str) -> (r: Vec<String>)
    ensures
        texts(r@) == word_patterns(matched(query@, matches_of(Pattern::Word, query@))),
{
    let found = find_pattern(Pattern::Word, query);
    patterns_of(&matched_texts(query, &found))
}

/// The query of the database for so many patterns.
pub open spec fn query_text(n: nat) -> Seq<char> {
    "SELECT GA_Id, Name, Rating FROM Games WHERE "@ + joined(
        Seq::new(n, |i: int| "Name LIKE ?"@),
        " AND "@,
    ) + " COLLATE NOCASE"@
}

pub fn query_sql(n: usize) -> (r: String)
    ensures
        r@ == query_text(n as nat),
{
    let mut parts: Vec<String> = Vec::new();
    let mut i: usize = 0;
    while i < n
        invariant
            i <= n,
            parts@.len() == i,
            forall|k: int| 0 <= k < i ==> (#[trigger] parts@[k])@ == "Name LIKE ?"@,
        decreases n - i,
    {
        parts.push("Name LIKE ?".to_string());
        i += 1;
    }
    assert(texts(parts@) =~= Seq::new(n as nat, |i: int| "Name LIKE ?"@));
    let clause = join(&parts, " AND ");
    append(
        append("SELECT GA_Id, Name, Rating FROM Games WHERE ", clause.as_str()).as_str(),
        " COLLATE NOCASE",
    )
}

/// The places of the games that none of these has the number of.
pub open spec fn other_hits(hs: Seq<Found>, exact: Seq<int>, n: int) -> Seq<int>
    decreases n,
{
    if n <= 0 {
        Seq::empty()
    } else if exists|k: int| 0 <= k < exact.len() && hs[#[trigger] exact[k]].id == hs[n - 1].id {
        other_hits(hs, exact, n - 1)
    } else {
        other_hits(hs, exact, n - 1).push(n - 1)
    }
}

/// The comparison of places by rating, the better first.
pub open spec fn by_rating(hs: Seq<Found>, idxs: Seq<int>) -> spec_fn(int, int) -> bool {
    |a: int, b: int| hs[idxs[a]].rating >= hs[idxs[b]].rating
}

/// The comparison of places by rating, the better first, and then by name.
pub open spec fn by_rating_and_name(hs: Seq<Found>, idxs: Seq<int>) -> spec_fn(int, int) -> bool {
    |a: int, b: int|
        hs[idxs[a]].rating > hs[idxs[b]].rating || (hs[idxs[a]].rating == hs[idxs[b]].rating
            && text_le(hs[idxs[a]].name, hs[idxs[b]].name))
}

/// The games with the query's very name, the best rated first.
pub open spec fn exact_ranked(hs: Seq<Found>, keys: Seq<Seq<char>>, qn: Seq<char>) -> Seq<Found> {
    let idxs = exact_upto(keys, qn, keys.len() as int);
    arranged(hs, arranged(idxs, stable_order(idxs.len(), by_rating(hs, idxs))))
}

/// The other games, the best rated first and then by name.
pub open spec fn others_ranked(hs: Seq<Found>, keys: Seq<Seq<char>>, qn: Seq<char>) -> Seq<Found> {
    let exact = exact_upto(keys, qn, keys.len() as int);
    let idxs = other_hits(hs, exact, hs.len() as int);
    arranged(hs, arranged(idxs, stable_order(idxs.len(), by_rating_and_name(hs, idxs))))
}

/// The key of a game's name, without details in brackets.
pub open spec fn name_key(name: Seq<char>) -> Seq<char> {
    norm_of(before_pattern(name, Pattern::Bracket))
}

pub open spec fn name_keys(hs: Seq<Found>) -> Seq<Seq<char>> {
    hs.map_values(|h: Found| name_key(h.name))
}

proof fn lemma_rating_compares(hs: Seq<Found>, idxs: Seq<int>)
    ensures
        compares(idxs.len(), by_rating(hs, idxs)),
        compares(idxs.len(), by_rating_and_name(hs, idxs)),
{
    let names = idxs.map_values(|i: int| hs[i].name);
    lemma_texts_compare(names);
    let t = by_texts(names);
    let le = by_rating_and_name(hs, idxs);
    let n = idxs.len();
    assert forall|a: int, b: int| 0 <= a < n && 0 <= b < n implies #[trigger] le(a, b) || le(b, a) by {
        assert(t(a, b) || t(b, a));
    }
    assert forall|a: int, b: int, c: int|
        0 <= a < n && 0 <= b < n && 0 <= c < n && #[trigger] le(a, b) && #[trigger] le(
            b,
            c,
        ) implies le(a, c) by {
        if hs[idxs[a]].rating == hs[idxs[b]].rating && hs[idxs[b]].rating == hs[idxs[c]].rating {
            assert(t(a, b) && t(b, c));
            assert(t(a, c));
        }
    }
}

fn take_hits(rows: &Vec<Hit>, idxs: &Vec<usize>, p: &Vec<usize>) -> (r: Vec<Hit>)
    requires
        forall|k: int| 0 <= k < idxs@.len() ==> #[trigger] idxs@[k] < rows@.len(),
        forall|k: int| 0 <= k < ints(p@).len() ==> 0 <= #[trigger] ints(p@)[k] < idxs@.len(),
    ensures
        hits(r@) == arranged(hits(rows@), arranged(ints(idxs@), ints(p@))),
{
    let mut r: Vec<Hit> = Vec::new();
    let mut i: usize = 0;
    let ghost goal = arranged(hits(rows@), arranged(ints(idxs@), ints(p@)));
    while i < p.len()
        invariant
            forall|k: int| 0 <= k < idxs@.len() ==> #[trigger] idxs@[k] < rows@.len(),
            forall|k: int| 0 <= k < ints(p@).len() ==> 0 <= #[trigger] ints(p@)[k] < idxs@.len(),
            goal == arranged(hits(rows@), arranged(ints(idxs@), ints(p@))),
            i <= p@.len(),
            r@.len() == i,
            forall|k: int| 0 <= k < i ==> (#[trigger] r@[k])@ == goal[k],
        decreases p@.len() - i,
    {
        assert(ints(p@)[i as int] == p@[i as int]);
        let h = &rows[idxs[p[i]]];
        r.push(Hit { id: h.id, name: h.name.clone(), rating: h.rating });
        i += 1;
    }
    assert(hits(r@) =~= goal);
    r
}

/// Ranks the games that a query found, when the keys of their names are known:
/// first those with the query's very name, then the others.
pub fn rank_hits(rows: &Vec<Hit>, keys: &Vec<String>, qn: &str) -> (r: (Vec<Hit>, Vec<Hit>))
    requires
        keys@.len() == rows@.len(),
    ensures
        hits(r.0@) == exact_ranked(hits(rows@), texts(keys@), qn@) + others_ranked(
            hits(rows@),
            texts(keys@),
            qn@,
        ),
        hits(r.1@) == exact_ranked(hits(rows@), texts(keys@), qn@),
{
    let ghost hs = hits(rows@);
    let ghost ks = texts(keys@);
    let mut exact: Vec<usize> = Vec::new();
    let mut n: usize = 0;
    assert(ints(exact@) =~= exact_upto(ks, qn@, 0));
    while n < keys.len()
        invariant
            ks == texts(keys@),
            keys@.len() == rows@.len(),
            n <= keys@.len(),
            ints(exact@) == exact_upto(ks, qn@, n as int),
            forall|k: int| 0 <= k < exact@.len() ==> #[trigger] exact@[k] < rows@.len(),
        decreases keys@.len() - n,
    {
        assert(ks[n as int] == keys@[n as int]@);
        if same(keys[n].as_str(), qn) {
            assert(ints(exact@.push(n)) =~= ints(exact@).push(n as int));
            exact.push(n);
        }
        n += 1;
    }
    assert(ks.len() == keys@.len());
    let ghost ex = exact_upto(ks, qn@, ks.len() as int);
    let mut rest: Vec<usize> = Vec::new();
    let mut m: usize = 0;
    assert(ints(rest@) =~= other_hits(hs, ex, 0));
    assert(hs.len() == rows@.len());
    while m < rows.len()
        invariant
            hs == hits(rows@),
            hs.len() == rows@.len(),
            ints(exact@) == ex,
            m <= rows@.len(),
            ints(rest@) == other_hits(hs, ex, m as int),
            forall|k: int| 0 <= k < exact@.len() ==> #[trigger] exact@[k] < rows@.len(),
            forall|k: int| 0 <= k < rest@.len() ==> #[trigger] rest@[k] < rows@.len(),
        decreases rows@.len() - m,
    {
        let mut seen = false;
        let mut k: usize = 0;
        assert(ints(exact@).len() == exact@.len());
        while k < exact.len() && !seen
            invariant
                hs == hits(rows@),
                hs.len() == rows@.len(),
                m < rows@.len(),
                ints(exact@) == ex,
                exact@.len() == ex.len(),
                forall|k: int| 0 <= k < exact@.len() ==> #[trigger] exact@[k] < rows@.len(),
                k <= exact@.len(),
                seen == exists|t: int| 0 <= t < k && hs[#[trigger] ex[t]].id == hs[m as int].id,
            decreases exact@.len() - k,
        {
            assert(ints(exact@)[k as int] == exact@[k as int]);
            assert(hs[exact@[k as int] as int] == rows@[exact@[k as int] as int]@);
            assert(hs[m as int] == rows@[m as int]@);
            if rows[exact[k]].id == rows[m].id {
                seen = true;
                assert(hs[ex[k as int]].id == hs[m as int].id);
            }
            k += 1;
        }
        if !seen {
            assert(ints(rest@.push(m)) =~= ints(rest@).push(m as int));
            rest.push(m);
        }
        m += 1;
    }
    let ghost ot = other_hits(hs, ex, hs.len() as int);
    proof {
        lemma_rating_compares(hs, ex);
        lemma_rating_compares(hs, ot);
        assert(ints(exact@).len() == exact@.len());
        assert(ints(rest@).len() == rest@.len());
    }
    let better = |a: usize, b: usize| -> (r: bool)
        requires
            a < exact@.len(),
            b < exact@.len(),
            forall|k: int| 0 <= k < exact@.len() ==> #[trigger] exact@[k] < rows@.len(),
        ensures
            r == by_rating(hits(rows@), ints(exact@))(a as int, b as int),
        {
            assert(hits(rows@)[exact@[a as int] as int] == rows@[exact@[a as int] as int]@);
            assert(hits(rows@)[exact@[b as int] as int] == rows@[exact@[b as int] as int]@);
            rows[exact[a]].rating >= rows[exact[b]].rating
        };
    let p = order_by(exact.len(), better, Ghost(by_rating(hs, ex)));
    let first = take_hits(rows, &exact, &p);
    let better_or_before = |a: usize, b: usize| -> (r: bool)
        requires
            a < rest@.len(),
            b < rest@.len(),
            forall|k: int| 0 <= k < rest@.len() ==> #[trigger] rest@[k] < rows@.len(),
        ensures
            r == by_rating_and_name(hits(rows@), ints(rest@))(a as int, b as int),
        {
            assert(hits(rows@)[rest@[a as int] as int] == rows@[rest@[a as int] as int]@);
            assert(hits(rows@)[rest@[b as int] as int] == rows@[rest@[b as int] as int]@);
            let (x, y) = (&rows[rest[a]], &rows[rest[b]]);
            x.rating > y.rating || (x.rating == y.rating && text_no_greater(
                x.name.as_str(),
                y.name.as_str(),
            ))
        };
    let q = order_by(rest.len(), better_or_before, Ghost(by_rating_and_name(hs, ot)));
    let mut others = take_hits(rows, &rest, &q);
    let mut all = take_hits(rows, &exact, &p);
    let ghost a0 = all@;
    let ghost o0 = others@;
    all.append(&mut others);
    assert(hits(all@) =~= hits(a0) + hits(o0));
    (all, first)
}

/// Ranks the games that a query found: all of them, and those with the query's very
/// name.
pub fn search(rows: &Vec<Hit>, query: &str) -> (r: (Vec<Hit>, Vec<Hit>))
    ensures
        ({
            let hs = hits(rows@);
            let exact = exact_ranked(hs, name_keys(hs), norm_of(query@));
            &&& hits(r.0@) == exact + others_ranked(hs, name_keys(hs), norm_of(query@))
            &&& hits(r.1@) == exact
        }),
{
    let mut keys: Vec<String> = Vec::new();
    let mut i: usize = 0;
    while i < rows.len()
        invariant
            i <= rows@.len(),
            keys@.len() == i,
            forall|k: int| 0 <= k < i ==> (#[trigger] keys@[k])@ == name_keys(hits(rows@))[k],
        decreases rows@.len() - i,
    {
        keys.push(norm(cut_pattern(rows[i].name.as_str(), Pattern::Bracket).as_str()));
        i += 1;
    }
    assert(texts(keys@) =~= name_keys(hits(rows@)));
    rank_hits(rows, &keys, norm(query).as_str())
}

/// The number of the best match: the first with the very name, else the first.
pub fn best_match(all: &Vec<Hit>, exact: &Vec<Hit>) -> (r: Option<i64>)
    ensures
        r == (if exact@.len() > 0 {
            Some(exact@[0].id)
        } else if all@.len() > 0 {
            Some(all@[0].id)
        } else {
            None
        }),
{
    if exact.len() > 0 {
        Some(exact[0].id)
    } else if all.len() > 0 {
        Some(all[0].id)
    } else {
        None
    }
}

// ---- the details of a game -----------------------------------------------------------------------------------

/// The details of a game, ready to be shown.
#[derive(Clone, Debug)]
pub struct InfoRecord {
    pub name: String,
    pub year: Option<String>,
    pub rows: Vec<(String, String)>,
    pub note: Option<String>,
}

/// The details of a game.
#[verifier::ext_equal]
pub struct Info {
    pub name: Seq<char>,
    pub year: Option<Seq<char>>,
    pub rows: Seq<(Seq<char>, Seq<char>)>,
    pub note: Option<Seq<char>>,
}

impl View for InfoRecord {
    type V = Info;

    open spec fn view(&self) -> Info {
        Info {
            name: self.name@,
            year: opt_text(self.year),
            rows: entries(self.rows@),
            note: opt_text(self.note),
        }
    }
}

/// The number of columns that the details are made of.
pub const COLUMNS: usize = 19;

pub open spec fn cell_texts(v: Seq<Option<String>>) -> Seq<Option<Seq<char>>> {
    v.map_values(|c: Option<String>| opt_text(c))
}

/// A value, unless it is one of those that the database has for none.
pub open spec fn present(v: Option<Seq<char>>) -> Option<Seq<char>> {
    match v {
        Some(s) => if s.len() == 0 || s == "(None)"@ || s == "(Unknown)"@ || s == "-1"@ {
            None
        } else {
            Some(s)
        },
        None => None,
    }
}

/// The number that a value is, unless it is the -1 that stands for none.
pub open spec fn present_number(v: Option<Seq<char>>) -> Option<i64> {
    match v {
        Some(s) => match whole_number(s) {
            Some(n) => if n == -1 {
                None
            } else {
                Some(n)
            },
            None => None,
        },
        None => None,
    }
}

/// A number that is there and not zero.
pub open spec fn counts(v: Option<i64>) -> bool {
    v matches Some(n) && n != 0
}

pub open spec fn or_zero(v: Option<i64>) -> i64 {
    match v {
        Some(n) => n,
        None => 0,
    }
}

/// The number of players: one number, or from the least to the most.
pub open spec fn players_text(from: Option<i64>, to: Option<i64>, sim: Option<i64>) -> Option<Seq<char>> {
    if !counts(from) && !counts(to) {
        None
    } else {
        let n = if from == to || !counts(to) {
            number_text(
                or_zero(
                    if counts(from) {
                        from
                    } else {
                        to
                    },
                ) as int,
            )
        } else {
            number_text(or_zero(from) as int) + "-"@ + number_text(or_zero(to) as int)
        };
        Some(
            if counts(sim) {
                n + " (simultaneous)"@
            } else {
                n
            },
        )
    }
}

/// The genre: the wider and the narrower, where they are there.
pub open spec fn genre_text(parent: Option<Seq<char>>, genre: Option<Seq<char>>) -> Option<Seq<char>> {
    match (parent, genre) {
        (Some(a), Some(b)) => Some(a + " / "@ + b),
        (Some(a), None) => Some(a),
        (None, b) => b,
    }
}

/// The link: its name and its address.
pub open spec fn link_text(name: Option<Seq<char>>, url: Option<Seq<char>>) -> Option<Seq<char>> {
    match url {
        Some(u) => Some(
            trimmed(
                (match name {
                    Some(n) => n,
                    None => Seq::empty(),
                }) + " "@ + u,
            ),
        ),
        None => None,
    }
}

/// A row, where there is a value for it.
pub open spec fn row_if(label: Seq<char>, v: Option<Seq<char>>) -> Seq<(Seq<char>, Seq<char>)> {
    match v {
        Some(s) => seq![(label, s)],
        None => Seq::empty(),
    }
}

/// The place of the last space before `n`; -1 when there is none.
pub open spec fn last_space(s: Seq<char>, n: int) -> int
    decreases n,
{
    if n <= 0 {
        -1
    } else if s[n - 1] == ' ' {
        n - 1
    } else {
        last_space(s, n - 1)
    }
}

/// A text of at most `limit` characters: a longer one ends at a word, and with
/// dots.
pub open spec fn shortened(s: Seq<char>, limit: int) -> Seq<char> {
    if s.len() <= limit {
        s
    } else {
        let at = last_space(s, limit);
        s.take(
            if at >= 0 {
                at
            } else {
                limit
            },
        ) + " ..."@
    }
}

/// The note on one line, shortened.
pub open spec fn note_text(v: Option<Seq<char>>) -> Option<Seq<char>> {
    match v {
        Some(s) => Some(shortened(collapsed(trimmed(s)), 500)),
        None => None,
    }
}

/// The rows of the details, those for which there is a value.
pub open spec fn info_rows(c: Seq<Option<Seq<char>>>) -> Seq<(Seq<char>, Seq<char>)> {
    row_if("Publisher"@, present(c[2])) + row_if("Developer"@, present(c[3])) + row_if(
        "Genre"@,
        genre_text(present(c[4]), present(c[5])),
    ) + row_if("Programmer"@, present(c[6])) + row_if("Music"@, present(c[7])) + row_if(
        "Language"@,
        present(c[8]),
    ) + row_if(
        "Players"@,
        players_text(present_number(c[9]), present_number(c[10]), present_number(c[11])),
    ) + row_if(
        "Rating"@,
        match present_number(c[12]) {
            Some(n) => Some(number_text(n as int) + "/5"@),
            None => None,
        },
    ) + row_if(
        "Classic"@,
        if counts(present_number(c[13])) {
            Some("yes"@)
        } else {
            None
        },
    ) + row_if("GB64 file"@, present(c[18])) + row_if("Link"@, link_text(present(c[16]), present(c[17])))
}

/// The details that the columns of a game's row give.
pub open spec fn info_of(c: Seq<Option<Seq<char>>>) -> Info {
    Info {
        name: match c[0] {
            Some(s) => s,
            None => Seq::empty(),
        },
        year: present(c[1]),
        rows: info_rows(c),
        note: note_text(
            match present(c[14]) {
                Some(s) => Some(s),
                None => present(c[15]),
            },
        ),
    }
}

fn clean(v: &Option<String>) -> (r: Option<String>)
    ensures
        opt_text(r) == present(opt_text(*v)),
{
    match v {
        Some(s) => if s.as_str().is_empty() || same(s.as_str(), "(None)") || same(
            s.as_str(),
            "(Unknown)",
        ) || same(s.as_str(), "-1") {
            None
        } else {
            Some(s.clone())
        },
        None => None,
    }
}

fn clean_int(v: &Option<String>) -> (r: Option<i64>)
    ensures
        r == present_number(opt_text(*v)),
{
    match v {
        Some(s) => match parse_i64(s.as_str()) {
            Some(n) => if n == -1 {
                None
            } else {
                Some(n)
            },
            None => None,
        },
        None => None,
    }
}

fn truthy(v: Option<i64>) -> (r: bool)
    ensures
        r == counts(v),
{
    match v {
        Some(n) => n != 0,
        None => false,
    }
}

fn or_nought(v: Option<i64>) -> (r: i64)
    ensures
        r == or_zero(v),
{
    match v {
        Some(n) => n,
        None => 0,
    }
}

/// The number of players, as it is shown.
pub fn players(from: Option<i64>, to: Option<i64>, sim: Option<i64>) -> (r: Option<String>)
    ensures
        opt_text(r) == players_text(from, to, sim),
{
    if !truthy(from) && !truthy(to) {
        return None;
    }
    let same_number = match (from, to) {
        (Some(a), Some(b)) => a == b,
        (None, None) => true,
        _ => false,
    };
    let n = if same_number || !truthy(to) {
        int_text(
            or_nought(
                if truthy(from) {
                    from
                } else {
                    to
                },
            ),
        )
    } else {
        append(
            append(int_text(or_nought(from)).as_str(), "-").as_str(),
            int_text(or_nought(to)).as_str(),
        )
    };
    if truthy(sim) {
        Some(append(n.as_str(), " (simultaneous)"))
    } else {
        Some(n)
    }
}

fn join_genre(parent: Option<String>, genre: Option<String>) -> (r: Option<String>)
    ensures
        opt_text(r) == genre_text(opt_text(parent), opt_text(genre)),
{
    match (parent, genre) {
        (Some(a), Some(b)) => Some(append(append(a.as_str(), " / ").as_str(), b.as_str())),
        (Some(a), None) => Some(a),
        (None, b) => b,
    }
}

fn join_link(name: Option<String>, url: Option<String>) -> (r: Option<String>)
    ensures
        opt_text(r) == link_text(opt_text(name), opt_text(url)),
{
    match url {
        Some(u) => {
            let n = match name {
                Some(n) => n,
                None => String::new(),
            };
            Some(trim(append(append(n.as_str(), " ").as_str(), u.as_str()).as_str()))
        },
        None => None,
    }
}

/// Shortens a text to at most `limit` characters, ending at a word.
pub fn truncate_note(s: &str, limit: usize) -> (r: String)
    ensures
        r@ == shortened(s@, limit as int),
{
    let v = chars_of(s);
    if v.len() <= limit {
        return s.to_owned();
    }
    let mut n: usize = limit;
    while n > 0 && v[n - 1] != ' '
        invariant
            v@ == s@,
            n <= limit < v@.len(),
            last_space(s@, limit as int) == last_space(s@, n as int),
        decreases n,
    {
        n -= 1;
    }
    let end: usize = if n > 0 {
        n - 1
    } else {
        limit
    };
    let head = string_range(&v, 0, end);
    assert(head@ =~= s@.take(end as int));
    append(head.as_str(), " ...")
}

fn push_row(rows: &mut Vec<(String, String)>, label: &str, v: Option<String>)
    ensures
        entries(final(rows)@) == entries(old(rows)@) + row_if(
            label@,
            opt_text(v),
        ),
{
    let ghost was = rows@;
    match v {
        Some(s) => {
            rows.push((label.to_owned(), s));
            assert(entries(rows@) =~= entries(was) + seq![
                (label@, s@),
            ]);
        },
        None => {
            assert(entries(rows@) =~= entries(was) + Seq::<
                (Seq<char>, Seq<char>),
            >::empty());
        },
    }
}

/// The details of a game from the columns of its row.
pub fn record(cells: &Vec<Option<String>>) -> (r: InfoRecord)
    requires
        cells@.len() == COLUMNS,
    ensures
        r@ == info_of(cell_texts(cells@)),
{
    let ghost c = cell_texts(cells@);
    let name = match &cells[0] {
        Some(s) => s.clone(),
        None => String::new(),
    };
    let mut rows: Vec<(String, String)> = Vec::new();
    assert(entries(rows@) =~= Seq::empty());
    push_row(&mut rows, "Publisher", clean(&cells[2]));
    assert(entries(rows@) =~= row_if("Publisher"@, present(c[2])));
    push_row(&mut rows, "Developer", clean(&cells[3]));
    push_row(&mut rows, "Genre", join_genre(clean(&cells[4]), clean(&cells[5])));
    push_row(&mut rows, "Programmer", clean(&cells[6]));
    push_row(&mut rows, "Music", clean(&cells[7]));
    push_row(&mut rows, "Language", clean(&cells[8]));
    let who = players(clean_int(&cells[9]), clean_int(&cells[10]), clean_int(&cells[11]));
    push_row(&mut rows, "Players", who);
    let rating = match clean_int(&cells[12]) {
        Some(n) => Some(append(int_text(n).as_str(), "/5")),
        None => None,
    };
    push_row(&mut rows, "Rating", rating);
    let classic = if truthy(clean_int(&cells[13])) {
        Some("yes".to_string())
    } else {
        None
    };
    push_row(&mut rows, "Classic", classic);
    push_row(&mut rows, "GB64 file", clean(&cells[18]));
    push_row(&mut rows, "Link", join_link(clean(&cells[16]), clean(&cells[17])));
    let raw = match clean(&cells[14]) {
        Some(s) => Some(s),
        None => clean(&cells[15]),
    };
    let note = match raw {
        Some(s) => Some(
            truncate_note(collapse_spaces(trim(s.as_str()).as_str()).as_str(), 500),
        ),
        None => None,
    };
    let r = InfoRecord { name, year: clean(&cells[1]), rows, note };
    assert(r@ =~= info_of(c));
    r
}

// ---- showing them -----------------------------------------------------------------------------------------------

/// So many copies of a character.
pub open spec fn repeated(c: char, n: int) -> Seq<char> {
    Seq::new(
        if n > 0 {
            n as nat
        } else {
            0
        },
        |i: int| c,
    )
}

/// A text with spaces behind it, to a width of `n`.
pub open spec fn padded(s: Seq<char>, n: int) -> Seq<char> {
    s + repeated(' ', n - s.len())
}

pub fn repeat(c: char, n: usize) -> (s: String)
    ensures
        s@ == repeated(c, n as int),
{
    let mut s = String::new();
    let mut i: usize = 0;
    assert(s@ =~= repeated(c, 0));
    while i < n
        invariant
            i <= n,
            s@ == repeated(c, i as int),
        decreases n - i,
    {
        s.push(c);
        i += 1;
        assert(s@ =~= repeated(c, i as int));
    }
    s
}

pub fn pad(s: &str, n: usize) -> (r: String)
    ensures
        r@ == padded(s@, n as int),
{
    let len: usize = chars_of(s).len();
    if len >= n {
        assert(padded(s@, n as int) =~= s@);
        s.to_owned()
    } else {
        append(s, repeat(' ', n - len).as_str())
    }
}

/// The lines of the rows.
pub open spec fn row_lines(rows: Seq<(Seq<char>, Seq<char>)>) -> Seq<char>
    decreases rows.len(),
{
    if rows.len() == 0 {
        Seq::empty()
    } else {
        row_lines(rows.drop_last()) + "    "@ + padded(rows.last().0, 11) + " "@ + rows.last().1
            + "\n"@
    }
}

/// The details as they are printed: the name and the year, a rule under them, the
/// rows, and the note.
pub open spec fn shown_info(r: Info) -> Seq<char> {
    let head = "\n  "@ + r.name + (match r.year {
        Some(y) => "  ("@ + y + ")"@,
        None => Seq::empty(),
    });
    let width = encode_utf8(r.name).len() + 8;
    let rule = "\n  "@ + repeated(
        '-',
        if width >= 24 {
            width as int
        } else {
            24
        },
    ) + "\n"@;
    let note = match r.note {
        Some(n) => "\n    "@ + n + "\n"@,
        None => Seq::empty(),
    };
    head + rule + row_lines(r.rows) + note + "\n"@
}

/// The details as they are printed.
pub fn show(r: &InfoRecord) -> (s: String)
    ensures
        s@ == shown_info(r@),
{
    let mut s = append("\n  ", r.name.as_str());
    match &r.year {
        Some(y) => {
            s.append("  (");
            s.append(y.as_str());
            s.append(")");
        },
        None => {},
    }
    let ghost head = "\n  "@ + r.name@ + (match r@.year {
        Some(y) => "  ("@ + y + ")"@,
        None => Seq::empty(),
    });
    assert(s@ =~= head);
    let length: usize = r.name.as_str().as_bytes().len();
    let over: usize = if length >= 16 {
        length
    } else {
        16
    };
    s.append("\n  ");
    s.append(repeat('-', over).as_str());
    s.append(repeat('-', 8).as_str());
    s.append("\n");
    let ghost top = head + ("\n  "@ + repeated('-', over + 8) + "\n"@);
    assert(s@ =~= top) by {
        assert(repeated('-', over as int) + repeated('-', 8) =~= repeated('-', over + 8));
    }
    let ghost rows = entries(r.rows@);
    let mut i: usize = 0;
    assert(s@ =~= top + row_lines(rows.take(0)));
    while i < r.rows.len()
        invariant
            rows == entries(r.rows@),
            i <= r.rows@.len(),
            s@ == top + row_lines(rows.take(i as int)),
        decreases r.rows@.len() - i,
    {
        proof {
            assert(rows.take(i + 1).drop_last() =~= rows.take(i as int));
            assert(rows[i as int] == (r.rows@[i as int].0@, r.rows@[i as int].1@));
        }
        s.append("    ");
        s.append(pad(r.rows[i].0.as_str(), 11).as_str());
        s.append(" ");
        s.append(r.rows[i].1.as_str());
        s.append("\n");
        assert(s@ =~= top + row_lines(rows.take(i + 1)));
        i += 1;
    }
    assert(rows.take(i as int) =~= rows);
    let ghost body = s@;
    match &r.note {
        Some(n) => {
            s.append("\n    ");
            s.append(n.as_str());
            s.append("\n");
            assert(s@ =~= body + ("\n    "@ + n@ + "\n"@));
        },
        None => {
            assert(s@ =~= body + Seq::<char>::empty());
        },
    }
    s.append("\n");
    assert(s@ =~= shown_info(r@));
    s
}

// ---- laws -------------------------------------------------------------------------------------------------------

/// A shortened note is at most four characters longer than the limit, and begins as
/// the note does.
pub proof fn law_notes_are_short(s: Seq<char>, limit: int)
    requires
        0 <= limit,
    ensures
        shortened(s, limit).len() <= limit + 4,
        s.len() <= limit ==> shortened(s, limit) == s,
{
    reveal_strlit(" ...");
    if s.len() > limit {
        lemma_last_space(s, limit);
    }
}

proof fn lemma_last_space(s: Seq<char>, n: int)
    requires
        0 <= n <= s.len(),
    ensures
        -1 <= last_space(s, n) < n || (n == 0 && last_space(s, n) == -1),
    decreases n,
{
    if n > 0 && s[n - 1] != ' ' {
        lemma_last_space(s, n - 1);
    }
}

/// No row is shown for a value that is not there.
pub proof fn law_absent_values_have_no_row(label: Seq<char>)
    ensures
        row_if(label, present(None)) == Seq::<(Seq<char>, Seq<char>)>::empty(),
        row_if(label, present(Some("(None)"@))) == Seq::<(Seq<char>, Seq<char>)>::empty(),
        row_if(label, present(Some("(Unknown)"@))) == Seq::<(Seq<char>, Seq<char>)>::empty(),
        row_if(label, present(Some("-1"@))) == Seq::<(Seq<char>, Seq<char>)>::empty(),
{
}

proof fn lemma_exact_places(keys: Seq<Seq<char>>, qn: Seq<char>, n: int, i: int)
    requires
        0 <= i < n <= keys.len(),
        keys[i] == qn,
    ensures
        exact_upto(keys, qn, n).contains(i),
    decreases n,
{
    let now = exact_upto(keys, qn, n);
    if i < n - 1 {
        lemma_exact_places(keys, qn, n - 1, i);
        let was = exact_upto(keys, qn, n - 1);
        let k = choose|k: int| 0 <= k < was.len() && was[k] == i;
        assert(now[k] == i);
    } else {
        assert(now[now.len() - 1] == i);
    }
}

proof fn lemma_other_places(hs: Seq<Found>, exact: Seq<int>, n: int, i: int)
    requires
        0 <= i < n <= hs.len(),
        forall|k: int| 0 <= k < exact.len() ==> hs[#[trigger] exact[k]].id != hs[i].id,
    ensures
        other_hits(hs, exact, n).contains(i),
    decreases n,
{
    let now = other_hits(hs, exact, n);
    if i < n - 1 {
        lemma_other_places(hs, exact, n - 1, i);
        let was = other_hits(hs, exact, n - 1);
        let k = choose|k: int| 0 <= k < was.len() && was[k] == i;
        assert(now[k] == i);
    } else {
        assert(now[now.len() - 1] == i);
    }
}

proof fn lemma_arranged_has(hs: Seq<Found>, idxs: Seq<int>, p: Seq<int>, i: int)
    requires
        idxs.contains(i),
        forall|k: int| 0 <= k < idxs.len() ==> #[trigger] p.contains(k),
    ensures
        arranged(hs, arranged(idxs, p)).contains(hs[i]),
{
    let k = choose|k: int| 0 <= k < idxs.len() && idxs[k] == i;
    assert(p.contains(k));
    let m = choose|m: int| 0 <= m < p.len() && p[m] == k;
    assert(arranged(hs, arranged(idxs, p))[m] == hs[i]);
}

/// No match is lost: one with the query's very name is among the exact ones, and one whose
/// number none of those has is among the others.
pub proof fn law_no_match_is_lost(hs: Seq<Found>, keys: Seq<Seq<char>>, qn: Seq<char>, i: int)
    requires
        keys.len() == hs.len(),
        0 <= i < hs.len(),
    ensures
        keys[i] == qn ==> exact_ranked(hs, keys, qn).contains(hs[i]),
        (forall|k: int|
            0 <= k < exact_ranked(hs, keys, qn).len() ==> (#[trigger] exact_ranked(hs, keys, qn)[k]).id
                != hs[i].id) ==> others_ranked(hs, keys, qn).contains(hs[i]),
{
    let exact = exact_upto(keys, qn, keys.len() as int);
    lemma_rating_compares(hs, exact);
    law_order_exists(exact.len(), by_rating(hs, exact));
    let p = stable_order(exact.len(), by_rating(hs, exact));
    let first = exact_ranked(hs, keys, qn);
    if keys[i] == qn {
        lemma_exact_places(keys, qn, keys.len() as int, i);
        lemma_arranged_has(hs, exact, p, i);
    }
    if forall|k: int| 0 <= k < first.len() ==> (#[trigger] first[k]).id != hs[i].id {
        assert forall|k: int| 0 <= k < exact.len() implies hs[#[trigger] exact[k]].id != hs[i].id by {
            assert(p.contains(k));
            let m = choose|m: int| 0 <= m < p.len() && p[m] == k;
            assert(first[m] == hs[exact[k]]);
        }
        let idxs = other_hits(hs, exact, hs.len() as int);
        lemma_other_places(hs, exact, hs.len() as int, i);
        lemma_rating_compares(hs, idxs);
        law_order_exists(idxs.len(), by_rating_and_name(hs, idxs));
        lemma_arranged_has(hs, idxs, stable_order(idxs.len(), by_rating_and_name(hs, idxs)), i);
    }
}

// ---- what the details say ----------------------------------------------------------------------------------------------

/// The values that the database has for none are left out, all others are kept.
pub proof fn law_values_that_are_none(s: Seq<char>)
    ensures
        present(Some(s)) == if s.len() == 0 || s == "(None)"@ || s == "(Unknown)"@ || s == "-1"@ {
            None
        } else {
            Some(s)
        },
        present(None) is None,
        present_number(Some("-1"@)) is None,
        number_of(s) is None ==> present_number(Some(s)) is None,
{
    reveal_strlit("-1");
    crate::text::law_numbers_come_back(-1);
    crate::text::lemma_decimal(1);
    assert(crate::text::decimal(1) =~= seq!['1']);
    assert(crate::text::number_text(-1) =~= "-1"@);
}

/// A number that the database has is kept, but for the -1 that stands for none.
pub proof fn law_numbers_that_are_there(n: i64)
    requires
        n != -1,
    ensures
        present_number(Some(number_text(n as int))) == Some(n),
{
    crate::text::law_numbers_come_back(n as int);
}

/// The number of players: one number where the least and the most are the same or only one
/// is known, else both, and a word where they play at once.
pub proof fn law_players(a: i64, b: i64, at_once: bool)
    requires
        a > 0,
        b > 0,
    ensures
        ({
            let sim = if at_once {
                Some(1i64)
            } else {
                None
            };
            let tail = if at_once {
                " (simultaneous)"@
            } else {
                Seq::empty()
            };
            &&& players_text(None, None, sim) is None
            &&& players_text(Some(0), Some(0), sim) is None
            &&& players_text(Some(a), Some(a), sim) == Some(number_text(a as int) + tail)
            &&& players_text(Some(a), None, sim) == Some(number_text(a as int) + tail)
            &&& players_text(None, Some(b), sim) == Some(number_text(0) + "-"@ + number_text(b as int) + tail)
            &&& a != b ==> players_text(Some(a), Some(b), sim) == Some(
                number_text(a as int) + "-"@ + number_text(b as int) + tail,
            )
        }),
{
    let x = number_text(a as int);
    let y = number_text(a as int) + "-"@ + number_text(b as int);
    let z = number_text(0) + "-"@ + number_text(b as int);
    assert(x + Seq::<char>::empty() =~= x);
    assert(y + Seq::<char>::empty() =~= y);
    assert(z + Seq::<char>::empty() =~= z);
}

/// The genre is the wider with the narrower, or the one that is there.
pub proof fn law_genres(a: Seq<char>, b: Seq<char>)
    ensures
        genre_text(Some(a), Some(b)) == Some(a + " / "@ + b),
        genre_text(Some(a), None) == Some(a),
        genre_text(None, Some(b)) == Some(b),
        genre_text(None, None) is None,
{
}

proof fn lemma_last_space_is_last(s: Seq<char>, n: int)
    requires
        0 <= n <= s.len(),
    ensures
        -1 <= last_space(s, n) < n,
        last_space(s, n) >= 0 ==> s[last_space(s, n)] == ' ',
        forall|i: int| last_space(s, n) < i < n ==> #[trigger] s[i] != ' ',
    decreases n,
{
    if n > 0 && s[n - 1] != ' ' {
        lemma_last_space_is_last(s, n - 1);
    }
}

/// A long text ends at the last space within its limit, and with dots; without a space it is
/// cut at the limit.
pub proof fn law_long_texts_end_at_a_word(s: Seq<char>, limit: int) -> (at: int)
    requires
        0 <= limit < s.len(),
    ensures
        0 <= at <= limit,
        shortened(s, limit) == s.take(at) + " ..."@,
        at < limit ==> s[at] == ' ',
        forall|i: int| at < i < limit ==> #[trigger] s[i] != ' ',
        at == limit ==> forall|i: int| 0 <= i < limit ==> #[trigger] s[i] != ' ',
{
    lemma_last_space_is_last(s, limit);
    let k = last_space(s, limit);
    if k >= 0 {
        k
    } else {
        limit
    }
}

/// A note is on one line and of five hundred characters at most, and is there when the game
/// has one.
pub proof fn law_notes(s: Seq<char>)
    ensures
        note_text(Some(s)) == Some(shortened(collapsed(trimmed(s)), 500)),
        note_text(None) is None,
{
}

/// Where nothing is known of a game, its details have no rows; each value that is known has
/// one, under its label.
pub proof fn law_rows_of_details(c: Seq<Option<Seq<char>>>, v: Seq<char>)
    requires
        c.len() == 19,
        forall|i: int| 0 <= i < 19 ==> #[trigger] c[i] is None,
        v.len() > 0,
        v != "(None)"@,
        v != "(Unknown)"@,
        v != "-1"@,
    ensures
        info_rows(c).len() == 0,
        info_rows(c.update(2, Some(v))) == seq![("Publisher"@, v)],
        info_rows(c.update(3, Some(v))) == seq![("Developer"@, v)],
        info_rows(c.update(4, Some(v))) == seq![("Genre"@, v)],
        info_rows(c.update(5, Some(v))) == seq![("Genre"@, v)],
        info_rows(c.update(6, Some(v))) == seq![("Programmer"@, v)],
        info_rows(c.update(7, Some(v))) == seq![("Music"@, v)],
        info_rows(c.update(8, Some(v))) == seq![("Language"@, v)],
        info_rows(c.update(18, Some(v))) == seq![("GB64 file"@, v)],
{
    assert(info_rows(c) =~= Seq::empty());
    assert(info_rows(c.update(2, Some(v))) =~= seq![("Publisher"@, v)]);
    assert(info_rows(c.update(3, Some(v))) =~= seq![("Developer"@, v)]);
    assert(info_rows(c.update(4, Some(v))) =~= seq![("Genre"@, v)]);
    assert(info_rows(c.update(5, Some(v))) =~= seq![("Genre"@, v)]);
    assert(info_rows(c.update(6, Some(v))) =~= seq![("Programmer"@, v)]);
    assert(info_rows(c.update(7, Some(v))) =~= seq![("Music"@, v)]);
    assert(info_rows(c.update(8, Some(v))) =~= seq![("Language"@, v)]);
    assert(info_rows(c.update(18, Some(v))) =~= seq![("GB64 file"@, v)]);
}

/// A rating is shown of five, and a classic as such.
pub proof fn law_ratings_and_classics(c: Seq<Option<Seq<char>>>, n: i64)
    requires
        c.len() == 19,
        forall|i: int| 0 <= i < 19 ==> #[trigger] c[i] is None,
        n >= 0,
    ensures
        info_rows(c.update(12, Some(number_text(n as int)))) == seq![
            ("Rating"@, number_text(n as int) + "/5"@),
        ],
        n > 0 ==> info_rows(c.update(13, Some(number_text(n as int)))) == seq![("Classic"@, "yes"@)],
        n == 0 ==> info_rows(c.update(13, Some(number_text(n as int)))).len() == 0,
{
    law_numbers_that_are_there(n);
    let t = Some(number_text(n as int));
    assert(info_rows(c.update(12, t)) =~= seq![("Rating"@, number_text(n as int) + "/5"@)]);
    if n > 0 {
        assert(info_rows(c.update(13, t)) =~= seq![("Classic"@, "yes"@)]);
    } else {
        assert(info_rows(c.update(13, t)) =~= Seq::empty());
    }
}

/// The name, the year and the note of a game stand in their columns; a second note takes the
/// place of a first that is missing.
pub proof fn law_details_of_columns(c: Seq<Option<Seq<char>>>)
    requires
        c.len() == 19,
    ensures
        c[0] matches Some(s) ==> info_of(c).name == s,
        info_of(c).year == present(c[1]),
        present(c[14]) is Some ==> info_of(c).note == note_text(present(c[14])),
        present(c[14]) is None ==> info_of(c).note == note_text(present(c[15])),
        info_of(c).rows == info_rows(c),
{
}

/// The matches with the query's own name come by rating, and the others by rating and then
/// by name.
pub proof fn law_better_rated_matches_come_first(
    hs: Seq<Found>,
    keys: Seq<Seq<char>>,
    qn: Seq<char>,
    i: int,
    j: int,
)
    requires
        keys.len() == hs.len(),
    ensures
        ({
            let e = exact_ranked(hs, keys, qn);
            let o = others_ranked(hs, keys, qn);
            &&& 0 <= i < j < e.len() ==> e[i].rating >= e[j].rating
            &&& 0 <= i < j < o.len() ==> o[i].rating > o[j].rating || (o[i].rating == o[j].rating
                && text_le(o[i].name, o[j].name))
        }),
{
    let ex = exact_upto(keys, qn, keys.len() as int);
    let ot = other_hits(hs, ex, hs.len() as int);
    lemma_rating_compares(hs, ex);
    lemma_rating_compares(hs, ot);
    let le = by_rating(hs, ex);
    let lo = by_rating_and_name(hs, ot);
    law_order_exists(ex.len(), le);
    law_order_exists(ot.len(), lo);
    let p = stable_order(ex.len(), le);
    let q = stable_order(ot.len(), lo);
    if 0 <= i < j < exact_ranked(hs, keys, qn).len() {
        assert(before(le, p[i], p[j]));
    }
    if 0 <= i < j < others_ranked(hs, keys, qn).len() {
        assert(before(lo, q[i], q[j]));
    }
}

/// The lines of the details: four spaces, the label to a width of eleven, a space and the
/// value.
pub proof fn law_lines_of_details(rows: Seq<(Seq<char>, Seq<char>)>, label: Seq<char>, v: Seq<char>)
    requires
        label.len() <= 11,
    ensures
        ({
            let before = row_lines(rows);
            let after = row_lines(rows.push((label, v)));
            let n = before.len() as int;
            &&& after.len() == n + 4 + 11 + 1 + v.len() + 1
            &&& after.take(n) == before
            &&& after.subrange(n + 4, n + 4 + label.len()) == label
            &&& after.subrange(n + 16, n + 16 + v.len()) == v
            &&& after.last() == '\n'
        }),
{
    assert(rows.push((label, v)).drop_last() =~= rows);
    reveal_strlit("    ");
    reveal_strlit(" ");
    reveal_strlit("\n");
    let before = row_lines(rows);
    let after = row_lines(rows.push((label, v)));
    let n = before.len() as int;
    assert(padded(label, 11).len() == 11);
    assert(after.take(n) =~= before);
    assert(after.subrange(n + 4, n + 4 + label.len()) =~= label);
    assert(after.subrange(n + 16, n + 16 + v.len()) =~= v);
}

/// A search by words goes over the words of more than one byte, each anywhere in the name.
pub proof fn law_short_words_are_not_sought(ws: Seq<Seq<char>>, w: Seq<char>)
    ensures
        encode_utf8(w).len() >= 2 ==> word_patterns(ws.push(w)) == word_patterns(ws).push(
            "%"@ + w + "%"@,
        ),
        encode_utf8(w).len() < 2 ==> word_patterns(ws.push(w)) == word_patterns(ws),
{
    assert(ws.push(w).drop_last() =~= ws);
}

} // verus!
