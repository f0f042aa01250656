//! The ranked catalogue of games: its rows, the genres they fall into, and the
//! log of what was played.

use crate::grouping::{first_seen, group, grouped, groups_view};
use crate::table::{
    fields_view, fits_field, fits_record, law_records_are_appended, line_of, push_record,
    records, records_of, whole_lines,
};
use crate::text::{
    decimal, decimal_text, is_digit, join, joined, lemma_decimal, lines, lines_of, number_of,
    parse_i64, same, texts, trim, trimmed,
};
use crate::titles::{game_title, game_title_of};
use vstd::prelude::*;

verus! {

/// One ranked game.
#[derive(Clone, Debug)]
pub struct Row {
    pub display: String,
    pub status: String,
    pub target: String,
    pub title: String,
    pub query: String,
    pub ident: String,
    pub genre: String,
    /// How often it was downloaded; zero when that is not known.
    pub downloads: i64,
}

/// What a row says.
#[verifier::ext_equal]
pub struct Game {
    pub display: Seq<char>,
    pub status: Seq<char>,
    pub target: Seq<char>,
    pub title: Seq<char>,
    pub query: Seq<char>,
    pub ident: Seq<char>,
    pub genre: Seq<char>,
    pub downloads: i64,
}

impl View for Row {
    type V = Game;

    open spec fn view(&self) -> Game {
        Game {
            display: self.display@,
            status: self.status@,
            target: self.target@,
            title: self.title@,
            query: self.query@,
            ident: self.ident@,
            genre: self.genre@,
            downloads: self.downloads,
        }
    }
}

/// What the rows of a list say.
pub open spec fn games(rows: Seq<Row>) -> Seq<Game> {
    rows.map_values(|r: Row| r@)
}

impl Game {
    /// The game is on disk.
    pub open spec fn local(self) -> bool {
        self.status == "local"@
    }

    /// The genre; games without one are in "Other".
    pub open spec fn genre_name(self) -> Seq<char> {
        if self.genre.len() == 0 {
            "Other"@
        } else {
            self.genre
        }
    }

    /// The key that covers and collections know the game by.
    pub open spec fn canon(self) -> Seq<char> {
        game_title_of(self.query)
    }
}

/// The genre of games that have none.
pub fn genre_other() -> (s: &'static str)
    ensures
        s@ == "Other"@,
{
    "Other"
}

impl Row {
    /// Whether the game is on disk.
    pub fn is_local(&self) -> (r: bool)
        ensures
            r == self@.local(),
    {
        same(self.status.as_str(), "local")
    }

    /// The genre, or "Other".
    pub fn genre_or_other(&self) -> (r: &str)
        ensures
            r@ == self@.genre_name(),
    {
        if self.genre.as_str().is_empty() {
            genre_other()
        } else {
            self.genre.as_str()
        }
    }
}

// ---- reading the index -----------------------------------------------------------------

/// A field of a record; empty when the record is shorter.
pub open spec fn field_or_empty(f: Seq<Seq<char>>, i: int) -> Seq<char> {
    if i < f.len() {
        f[i]
    } else {
        Seq::empty()
    }
}

/// The number in a text that fits an `i64`; zero when there is none.
pub open spec fn count_in(s: Seq<char>) -> i64 {
    match number_of(s) {
        Some(n) => if i64::MIN <= n <= i64::MAX {
            n as i64
        } else {
            0
        },
        None => 0,
    }
}

/// The row that a record of the index is; records of fewer than five fields are
/// none.
pub open spec fn game_of_record(f: Seq<Seq<char>>) -> Option<Game> {
    if f.len() < 5 {
        None
    } else {
        Some(
            Game {
                display: f[0],
                status: f[1],
                target: f[2],
                title: f[3],
                query: f[4],
                ident: field_or_empty(f, 5),
                genre: field_or_empty(f, 6),
                downloads: count_in(field_or_empty(f, 7)),
            },
        )
    }
}

/// The rows of a list of records.
pub open spec fn games_of_records(rs: Seq<Seq<Seq<char>>>) -> Seq<Game>
    decreases rs.len(),
{
    if rs.len() == 0 {
        Seq::empty()
    } else {
        let init = games_of_records(rs.drop_last());
        match game_of_record(rs.last()) {
            Some(g) => init.push(g),
            None => init,
        }
    }
}

/// The rows of an index.
pub open spec fn games_of_text(text: Seq<char>) -> Seq<Game> {
    games_of_records(records_of(text))
}

pub fn field_text(f: &Vec<String>, i: usize) -> (s: String)
    ensures
        s@ == field_or_empty(texts(f@), i as int),
{
    if i < f.len() {
        assert(texts(f@)[i as int] == f@[i as int]@);
        f[i].clone()
    } else {
        String::new()
    }
}

/// Reads the rows of an index.
pub fn load_rows(text: &str) -> (rows: Vec<Row>)
    ensures
        games(rows@) == games_of_text(text@),
{
    let rs = records(text);
    let ghost all = fields_view(rs@);
    let mut rows: Vec<Row> = Vec::new();
    let mut i: usize = 0;
    assert(games(rows@) =~= games_of_records(all.take(0)));
    while i < rs.len()
        invariant
            all == fields_view(rs@),
            i <= rs@.len(),
            games(rows@) == games_of_records(all.take(i as int)),
        decreases rs@.len() - i,
    {
        let f = &rs[i];
        proof {
            assert(all.take(i + 1).drop_last() =~= all.take(i as int));
            assert(all[i as int] == texts(f@));
        }
        if f.len() >= 5 {
            let downloads: i64 = match parse_i64(field_text(f, 7).as_str()) {
                Some(n) => n,
                None => 0,
            };
            let row = Row {
                display: field_text(f, 0),
                status: field_text(f, 1),
                target: field_text(f, 2),
                title: field_text(f, 3),
                query: field_text(f, 4),
                ident: field_text(f, 5),
                genre: field_text(f, 6),
                downloads,
            };
            assert(Some(row@) == game_of_record(texts(f@)));
            assert(games(rows@.push(row)) =~= games(rows@).push(row@));
            rows.push(row);
        }
        i += 1;
    }
    assert(all.take(i as int) =~= all);
    rows
}

/// The key that covers and collections know a row by.
pub fn canon_of(row: &Row) -> (r: String)
    ensures
        r@ == row@.canon(),
{
    game_title(row.query.as_str())
}

/// The first local row with a title: where the game is after a download.
pub open spec fn first_local(gs: Seq<Game>, title: Seq<char>, from: int) -> Option<Seq<char>>
    decreases gs.len() - from,
{
    if from < 0 || from >= gs.len() {
        None
    } else if gs[from].title == title && gs[from].local() {
        Some(gs[from].target)
    } else {
        first_local(gs, title, from + 1)
    }
}

pub fn find_local(rows: &[Row], title: &str) -> (r: Option<String>)
    ensures
        match r {
            Some(t) => first_local(games(rows@), title@, 0) == Some(t@),
            None => first_local(games(rows@), title@, 0) is None,
        },
{
    let mut i: usize = 0;
    while i < rows.len()
        invariant
            i <= rows@.len(),
            first_local(games(rows@), title@, 0) == first_local(games(rows@), title@, i as int),
        decreases rows@.len() - i,
    {
        assert(games(rows@)[i as int] == rows@[i as int]@);
        if same(rows[i].title.as_str(), title) && rows[i].is_local() {
            return Some(rows[i].target.clone());
        }
        i += 1;
    }
    None
}

// ---- genres ------------------------------------------------------------------------------

/// The genres of the rows.
pub open spec fn genres(gs: Seq<Game>) -> Seq<Seq<char>> {
    gs.map_values(|g: Game| g.genre_name())
}

/// Groups rows by genre: the genres in the order in which they are first seen,
/// and in each the rows in their order.
pub fn group_by_genre(rows: &[Row]) -> (r: Vec<(String, Vec<usize>)>)
    ensures
        groups_view(r@) == grouped(genres(games(rows@))),
{
    let mut keys: Vec<String> = Vec::new();
    let mut i: usize = 0;
    while i < rows.len()
        invariant
            i <= rows@.len(),
            keys@.len() == i,
            forall|k: int| 0 <= k < i ==> (#[trigger] keys@[k])@ == genres(games(rows@))[k],
        decreases rows@.len() - i,
    {
        keys.push(rows[i].genre_or_other().to_owned());
        i += 1;
    }
    assert(texts(keys@) =~= genres(games(rows@)));
    group(&keys)
}

// ---- the log of plays ----------------------------------------------------------------------

/// The line that a play at a time adds to the log.
pub fn play_line(secs: u64, row: &Row) -> (r: String)
    ensures
        r@ == line_of(seq![decimal(secs as nat), row@.display]) + seq!['\n'],
{
    let mut r = String::new();
    let mut fields: Vec<String> = Vec::new();
    fields.push(decimal_text(secs));
    fields.push(row.display.clone());
    assert(texts(fields@) =~= seq![decimal(secs as nat), row@.display]);
    push_record(&mut r, &fields);
    r
}

/// What was played, oldest first: the second field of each record that has one.
pub open spec fn plays(rs: Seq<Seq<Seq<char>>>) -> Seq<Seq<char>>
    decreases rs.len(),
{
    if rs.len() == 0 {
        Seq::empty()
    } else if rs.last().len() < 2 {
        plays(rs.drop_last())
    } else {
        plays(rs.drop_last()).push(rs.last()[1])
    }
}

/// What was played, newest first and each once.
pub open spec fn latest(text: Seq<char>) -> Seq<Seq<char>> {
    first_seen(plays(records_of(text)).reverse())
}

/// The first of a list, at most `limit` of them but never fewer than one.
pub open spec fn limited(s: Seq<Seq<char>>, limit: Option<usize>) -> Seq<Seq<char>> {
    match limit {
        Some(n) => {
            let most = if n == 0 {
                1
            } else {
                n as int
            };
            if s.len() > most {
                s.take(most)
            } else {
                s
            }
        },
        None => s,
    }
}

/// The different texts of a list, in the order in which they are first seen.
pub fn distinct(keys: &Vec<String>) -> (r: Vec<String>)
    ensures
        texts(r@) == first_seen(texts(keys@)),
{
    let groups = group(keys);
    let mut r: Vec<String> = Vec::new();
    let mut i: usize = 0;
    assert(groups_view(groups@).len() == first_seen(texts(keys@)).len());
    while i < groups.len()
        invariant
            groups_view(groups@) == grouped(texts(keys@)),
            groups@.len() == first_seen(texts(keys@)).len(),
            i <= groups@.len(),
            r@.len() == i,
            forall|k: int| 0 <= k < i ==> (#[trigger] r@[k])@ == first_seen(texts(keys@))[k],
        decreases groups@.len() - i,
    {
        assert(groups_view(groups@)[i as int] == grouped(texts(keys@))[i as int]);
        r.push(groups[i].0.clone());
        i += 1;
    }
    assert(texts(r@) =~= first_seen(texts(keys@)));
    r
}

/// What was played, from the text of the log: newest first, each once.
pub fn recent_plays(text: &str, limit: Option<usize>) -> (r: Vec<String>)
    ensures
        texts(r@) == limited(latest(text@), limit),
{
    let rs = records(text);
    let ghost all = fields_view(rs@);
    let mut newest: Vec<String> = Vec::new();
    let mut i: usize = rs.len();
    assert(all.take(i as int) =~= all);
    assert(texts(newest@) + plays(all.take(i as int)).reverse() =~= plays(all).reverse());
    while i > 0
        invariant
            all == fields_view(rs@),
            i <= rs@.len(),
            texts(newest@) + plays(all.take(i as int)).reverse() == plays(all).reverse(),
        decreases i,
    {
        i -= 1;
        let f = &rs[i];
        proof {
            assert(all.take(i + 1).drop_last() =~= all.take(i as int));
            assert(all[i as int] == texts(f@));
        }
        if f.len() >= 2 {
            let name = f[1].clone();
            proof {
                assert(texts(f@)[1] == name@);
                assert(plays(all.take(i + 1)) == plays(all.take(i as int)).push(name@));
                assert(texts(newest@.push(name)) =~= texts(newest@).push(name@));
                assert(texts(newest@).push(name@) + plays(all.take(i as int)).reverse() =~= texts(
                    newest@,
                ) + plays(all.take(i + 1)).reverse());
            }
            newest.push(name);
        }
    }
    assert(texts(newest@) =~= plays(all).reverse());
    let mut r = distinct(&newest);
    match limit {
        Some(n) => {
            let most: usize = if n == 0 {
                1
            } else {
                n
            };
            if r.len() > most {
                let ghost was = texts(r@);
                r.truncate(most);
                assert(texts(r@) =~= was.take(most as int));
            }
        },
        None => {},
    }
    r
}

// ---- what other programs say ------------------------------------------------------------------

/// The last line that is not blank; empty when there is none.
pub open spec fn last_line(ls: Seq<Seq<char>>) -> Seq<char>
    decreases ls.len(),
{
    if ls.len() == 0 {
        Seq::empty()
    } else if trimmed(ls.last()).len() > 0 {
        ls.last()
    } else {
        last_line(ls.drop_last())
    }
}

/// The path that a download printed last.
pub fn printed_path(out: &str) -> (r: String)
    ensures
        r@ == last_line(lines_of(out@)),
{
    let ls = lines(out);
    let mut i: usize = ls.len();
    assert(texts(ls@).take(i as int) =~= texts(ls@));
    while i > 0
        invariant
            texts(ls@) == lines_of(out@),
            i <= ls@.len(),
            last_line(lines_of(out@)) == last_line(texts(ls@).take(i as int)),
        decreases i,
    {
        i -= 1;
        assert(texts(ls@).take(i + 1).drop_last() =~= texts(ls@).take(i as int));
        assert(texts(ls@)[i as int] == ls@[i as int]@);
        if !trim(ls[i].as_str()).as_str().is_empty() {
            return ls[i].clone();
        }
    }
    String::new()
}

/// The lines that are not blank, without the space around them.
pub open spec fn said(ls: Seq<Seq<char>>) -> Seq<Seq<char>>
    decreases ls.len(),
{
    if ls.len() == 0 {
        Seq::empty()
    } else if trimmed(ls.last()).len() > 0 {
        said(ls.drop_last()).push(trimmed(ls.last()))
    } else {
        said(ls.drop_last())
    }
}

/// The end of what a program complained about: its last three lines.
pub open spec fn complaint(text: Seq<char>) -> Option<Seq<char>> {
    let all = said(lines_of(text));
    if all.len() == 0 {
        None
    } else if all.len() > 3 {
        Some(joined(all.skip(all.len() - 3), "\n"@))
    } else {
        Some(joined(all, "\n"@))
    }
}

/// Why a program failed, from what it printed; `None` when it said nothing.
pub fn error_tail(err: &str) -> (r: Option<String>)
    ensures
        match r {
            Some(t) => complaint(err@) == Some(t@),
            None => complaint(err@) is None,
        },
{
    let ls = lines(err);
    let mut all: Vec<String> = Vec::new();
    let mut i: usize = 0;
    assert(texts(all@) =~= said(texts(ls@).take(0)));
    while i < ls.len()
        invariant
            texts(ls@) == lines_of(err@),
            i <= ls@.len(),
            texts(all@) == said(texts(ls@).take(i as int)),
        decreases ls@.len() - i,
    {
        assert(texts(ls@).take(i + 1).drop_last() =~= texts(ls@).take(i as int));
        assert(texts(ls@)[i as int] == ls@[i as int]@);
        let t = trim(ls[i].as_str());
        if !t.as_str().is_empty() {
            assert(texts(all@.push(t)) =~= texts(all@).push(t@));
            all.push(t);
        }
        i += 1;
    }
    assert(texts(ls@).take(i as int) =~= texts(ls@));
    assert(texts(all@).len() == all@.len());
    if all.len() == 0 {
        return None;
    }
    let from: usize = if all.len() > 3 {
        all.len() - 3
    } else {
        0
    };
    let mut tail: Vec<String> = Vec::new();
    let mut k: usize = from;
    while k < all.len()
        invariant
            from <= k <= all@.len(),
            tail@.len() == k - from,
            forall|m: int| 0 <= m < k - from ==> (#[trigger] tail@[m])@ == all@[from + m]@,
        decreases all@.len() - k,
    {
        tail.push(all[k].clone());
        k += 1;
    }
    assert(texts(tail@) =~= texts(all@).skip(from as int));
    assert(from == 0 ==> texts(all@).skip(0) =~= texts(all@));
    Some(join(&tail, "\n"))
}

// ---- laws ------------------------------------------------------------------------------------

proof fn lemma_limited(s: Seq<Seq<char>>, limit: Option<usize>)
    requires
        s.no_duplicates(),
    ensures
        limited(s, limit).no_duplicates(),
        limited(s, limit).len() <= s.len(),
        forall|i: int| 0 <= i < limited(s, limit).len() ==> limited(s, limit)[i] == s[i],
{
}

/// No game is listed twice among the latest plays.
pub proof fn law_latest_are_distinct(text: Seq<char>, limit: Option<usize>)
    ensures
        limited(latest(text), limit).no_duplicates(),
{
    crate::grouping::lemma_first_seen(plays(records_of(text)).reverse());
    lemma_limited(latest(text), limit);
}

/// The newest play comes first.
pub proof fn law_newest_play_first(text: Seq<char>)
    requires
        plays(records_of(text)).len() > 0,
    ensures
        latest(text).len() > 0,
        latest(text)[0] == plays(records_of(text)).last(),
{
    let r = plays(records_of(text)).reverse();
    assert(r[0] == plays(records_of(text)).last());
    lemma_first_of_first_seen(r);
}

proof fn lemma_first_of_first_seen(keys: Seq<Seq<char>>)
    requires
        keys.len() > 0,
    ensures
        first_seen(keys).len() > 0,
        first_seen(keys)[0] == keys[0],
    decreases keys.len(),
{
    if keys.len() == 1 {
        assert(keys.drop_last() =~= Seq::empty());
        assert(first_seen(keys) =~= seq![keys[0]]);
    } else {
        lemma_first_of_first_seen(keys.drop_last());
        assert(keys.drop_last()[0] == keys[0]);
    }
}

/// A list without an item.
pub open spec fn without_item(s: Seq<Seq<char>>, k: Seq<char>) -> Seq<Seq<char>>
    decreases s.len(),
{
    if s.len() == 0 {
        Seq::empty()
    } else {
        let init = without_item(s.drop_last(), k);
        if s.last() == k {
            init
        } else {
            init.push(s.last())
        }
    }
}

proof fn lemma_without_item(s: Seq<Seq<char>>, k: Seq<char>)
    ensures
        !without_item(s, k).contains(k),
        forall|o: Seq<char>|
            o != k ==> (#[trigger] without_item(s, k).contains(o) <==> s.contains(o)),
    decreases s.len(),
{
    if s.len() > 0 {
        let init = s.drop_last();
        lemma_without_item(init, k);
        assert(s == init.push(s.last()));
        assert forall|o: Seq<char>| o != k implies (#[trigger] without_item(s, k).contains(o)
            <==> s.contains(o)) by {
            lemma_in_push(init, s.last(), o);
            lemma_in_push(without_item(init, k), s.last(), o);
            assert(without_item(init, k).contains(o) <==> init.contains(o));
        }
        lemma_in_push(without_item(init, k), s.last(), k);
    }
}

proof fn lemma_in_push(s: Seq<Seq<char>>, last: Seq<char>, o: Seq<char>)
    ensures
        s.push(last).contains(o) <==> s.contains(o) || o == last,
{
    let all = s.push(last);
    if s.contains(o) {
        let i = s.index_of(o);
        assert(all[i] == o);
    }
    assert(all[s.len() as int] == last);
    if all.contains(o) {
        let i = all.index_of(o);
        if i < s.len() {
            assert(s[i] == o);
        }
    }
}

proof fn lemma_first_seen_front(k: Seq<char>, keys: Seq<Seq<char>>)
    ensures
        first_seen(seq![k] + keys) == seq![k] + without_item(first_seen(keys), k),
    decreases keys.len(),
{
    let all = seq![k] + keys;
    if keys.len() == 0 {
        assert(all =~= seq![k]);
        assert(all.drop_last() =~= Seq::empty());
        assert(first_seen(Seq::empty()) =~= Seq::<Seq<char>>::empty());
        assert(first_seen(all) =~= seq![k]);
        assert(without_item(first_seen(keys), k) =~= Seq::empty());
        assert(first_seen(all) =~= seq![k] + without_item(first_seen(keys), k));
    } else {
        let init = keys.drop_last();
        let last = keys.last();
        let seen = first_seen(init);
        lemma_first_seen_front(k, init);
        assert(all.drop_last() =~= seq![k] + init);
        assert(all.last() == last);
        let before = seq![k] + without_item(seen, k);
        lemma_without_item(seen, k);
        assert(before[0] == k);
        assert(seen.push(last).drop_last() =~= seen);
        if last != k {
            assert(before.contains(last) <==> without_item(seen, k).contains(last)) by {
                if before.contains(last) {
                    let i = before.index_of(last);
                    assert(without_item(seen, k)[i - 1] == last);
                }
                if without_item(seen, k).contains(last) {
                    let i = without_item(seen, k).index_of(last);
                    assert(before[i + 1] == last);
                }
            }
        }
        assert(first_seen(all) =~= seq![k] + without_item(first_seen(keys), k));
    }
}

/// A play that is written to the log comes first among the latest, and the others follow as
/// they were. The text of the log is lines that are ended, as `play_line` makes them, and
/// the line can hold the title.
pub proof fn law_a_play_comes_first(text: Seq<char>, secs: u64, display: Seq<char>)
    requires
        whole_lines(text),
        fits_field(display),
        display.len() == 0 || display.last() != '\r',
    ensures
        latest(text + (line_of(seq![decimal(secs as nat), display]) + seq!['\n'])) == seq![display]
            + without_item(latest(text), display),
{
    let when = decimal(secs as nat);
    let fields = seq![when, display];
    let line = line_of(fields) + seq!['\n'];
    lemma_decimal(secs as nat);
    assert(fits_field(when)) by {
        assert forall|i: int| 0 <= i < when.len() implies #[trigger] when[i] != '\t' && when[i]
            != '\n' by {
            assert(is_digit(when[i]));
        }
    }
    reveal_strlit("\t");
    assert(fields.drop_last() =~= seq![when]);
    assert(line_of(seq![when]) == when);
    assert(line_of(fields) == when + "\t"@ + display);
    assert(fits_record(fields));
    law_records_are_appended(text, fields);
    let rs = records_of(text);
    assert(rs.push(fields).drop_last() =~= rs);
    assert(plays(rs.push(fields)).reverse() =~= seq![display] + plays(rs).reverse());
    lemma_first_seen_front(display, plays(rs).reverse());
}

/// Nothing was played as long as nothing is in the log.
pub proof fn law_no_log_no_plays()
    ensures
        latest(Seq::empty()) == Seq::<Seq<char>>::empty(),
{
    assert(records_of(Seq::empty()) =~= Seq::empty());
    assert(plays(Seq::empty()).reverse() =~= Seq::<Seq<char>>::empty());
}

/// A limit keeps the first of the latest plays, as many as it says.
pub proof fn law_a_limit_keeps_the_first(text: Seq<char>, limit: usize)
    requires
        limit > 0,
    ensures
        limited(latest(text), Some(limit)) == latest(text).take(
            if limit <= latest(text).len() {
                limit as int
            } else {
                latest(text).len() as int
            },
        ),
{
    assert(latest(text).take(latest(text).len() as int) =~= latest(text));
}

// ---- what rows say -------------------------------------------------------------------------------------------------

/// A record of the index is a row when it has five fields at least; those that came later may
/// be missing. A count that is no number is zero.
pub proof fn law_records_are_rows(f: Seq<Seq<char>>, n: i64)
    ensures
        f.len() < 5 ==> game_of_record(f) is None,
        f.len() >= 5 ==> (game_of_record(f) matches Some(g) && g.display == f[0] && g.status == f[1]
            && g.target == f[2] && g.title == f[3] && g.query == f[4] && (f.len() > 5 ==> g.ident
            == f[5]) && (f.len() > 6 ==> g.genre == f[6]) && (f.len() <= 5 ==> g.ident.len() == 0)
            && (f.len() <= 6 ==> g.genre.len() == 0) && (f.len() <= 7 ==> g.downloads == 0) && (
        f.len() > 7 && f[7] == crate::text::number_text(n as int) ==> g.downloads == n)),
{
    crate::text::law_numbers_come_back(n as int);
    if f.len() >= 5 && f.len() <= 7 {
        assert(field_or_empty(f, 7) =~= Seq::empty());
        assert(number_of(Seq::empty()) is None);
    }
}

/// Every record that is a row is in the list, in the order of the records.
pub proof fn law_rows_keep_their_order(rs: Seq<Seq<Seq<char>>>, more: Seq<Seq<char>>)
    ensures
        more.len() < 5 ==> games_of_records(rs.push(more)) == games_of_records(rs),
        more.len() >= 5 ==> games_of_records(rs.push(more)) == games_of_records(rs).push(
            game_of_record(more)->0,
        ),
{
    assert(rs.push(more).drop_last() =~= rs);
}

/// A game is on disk when its status says "local"; a game without a genre is in "Other".
pub proof fn law_status_and_genre(g: Game)
    ensures
        g.local() <==> g.status == "local"@,
        g.genre.len() > 0 ==> g.genre_name() == g.genre,
        g.genre.len() == 0 ==> g.genre_name() == "Other"@,
{
}

/// A downloaded game is found at the first local row with its title, and not where there is
/// none.
pub proof fn law_downloaded_games_are_found(gs: Seq<Game>, title: Seq<char>, from: int)
    requires
        0 <= from <= gs.len(),
    ensures
        match first_local(gs, title, from) {
            Some(target) => exists|i: int|
                from <= i < gs.len() && (#[trigger] gs[i]).target == target && gs[i].title == title
                    && gs[i].status == "local"@ && forall|k: int|
                    from <= k < i ==> !((#[trigger] gs[k]).title == title && gs[k].status == "local"@),
            None => forall|k: int|
                from <= k < gs.len() ==> !((#[trigger] gs[k]).title == title && gs[k].status
                    == "local"@),
        },
    decreases gs.len() - from,
{
    if from < gs.len() {
        if gs[from].title == title && gs[from].local() {
            assert(gs[from].target == first_local(gs, title, from)->0);
        } else {
            law_downloaded_games_are_found(gs, title, from + 1);
            if let Some(target) = first_local(gs, title, from + 1) {
                let i = choose|i: int|
                    from + 1 <= i < gs.len() && (#[trigger] gs[i]).target == target && gs[i].title
                        == title && gs[i].status == "local"@ && forall|k: int|
                        from + 1 <= k < i ==> !((#[trigger] gs[k]).title == title && gs[k].status
                            == "local"@);
                assert(gs[i].target == target);
            }
        }
    }
}

/// Of what a program said the last lines are shown that are not blank, three at most.
pub proof fn law_the_last_lines_are_shown(text: Seq<char>, more: Seq<char>)
    requires
        crate::table::whole_lines(text),
        crate::table::fits_line(more),
        trimmed(more).len() > 0,
    ensures
        ({
            let all = said(lines_of(text));
            let n = all.len() as int;
            let r = complaint(text + (more + seq!['\n']));
            let line = trimmed(more);
            &&& n == 0 ==> r == Some(line)
            &&& n == 1 ==> r == Some(all[0] + "\n"@ + line)
            &&& n >= 2 ==> r == Some(all[n - 2] + "\n"@ + all[n - 1] + "\n"@ + line)
        }),
{
    crate::table::law_lines_are_appended(text, more);
    let ls = lines_of(text);
    assert(ls.push(more).drop_last() =~= ls);
    let all = said(ls);
    let now = said(ls.push(more));
    let n = all.len() as int;
    assert(now == all.push(trimmed(more)));
    reveal_with_fuel(joined, 4);
    if n == 0 {
        assert(now =~= seq![trimmed(more)]);
    } else if n == 1 {
        assert(now.drop_last() =~= seq![all[0]]);
    } else {
        let last = if n > 2 {
            now.skip(now.len() - 3)
        } else {
            now
        };
        assert(last =~= seq![all[n - 2], all[n - 1], trimmed(more)]);
        assert(last.drop_last() =~= seq![all[n - 2], all[n - 1]]);
        assert(last.drop_last().drop_last() =~= seq![all[n - 2]]);
    }
}

/// Where nothing was said nothing is shown.
pub proof fn law_silence_is_no_complaint(text: Seq<char>)
    requires
        forall|i: int| 0 <= i < lines_of(text).len() ==> trimmed(#[trigger] lines_of(text)[i]).len() == 0,
    ensures
        complaint(text) is None,
        last_line(lines_of(text)).len() == 0,
{
    lemma_nothing_said(lines_of(text));
}

proof fn lemma_nothing_said(ls: Seq<Seq<char>>)
    requires
        forall|i: int| 0 <= i < ls.len() ==> trimmed(#[trigger] ls[i]).len() == 0,
    ensures
        said(ls).len() == 0,
        last_line(ls).len() == 0,
    decreases ls.len(),
{
    if ls.len() > 0 {
        assert(trimmed(ls[ls.len() - 1]).len() == 0);
        assert forall|i: int| 0 <= i < ls.drop_last().len() implies trimmed(
            #[trigger] ls.drop_last()[i],
        ).len() == 0 by {
            assert(trimmed(ls[i]).len() == 0);
        }
        lemma_nothing_said(ls.drop_last());
    }
}

/// The path that a program printed is its last line that is not blank.
pub proof fn law_the_last_line_is_the_path(ls: Seq<Seq<char>>, more: Seq<char>)
    ensures
        trimmed(more).len() > 0 ==> last_line(ls.push(more)) == more,
        trimmed(more).len() == 0 ==> last_line(ls.push(more)) == last_line(ls),
{
    assert(ls.push(more).drop_last() =~= ls);
}

} // verus!
