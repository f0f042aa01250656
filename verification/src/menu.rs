//! The menu of games: genres that open and close, a filter, a cursor, and a card with
//! the details of the game under it.

use crate::catalogue::{games, group_by_genre, Game, Row};
use crate::grid::{max_int, min_int, Key, Mouse};
use crate::grouping::{group_view, grouped, groups_view};
use crate::info::{repeat, repeated, Info, InfoRecord};
use crate::keyed::{entries, Entries};
use crate::layout::{cut, to_uppercase, trunc, uppered, words_from, wrap, wrapped};
use crate::sections::{lemma_grouped_rows, Section};
use crate::text::{
    append, chars_of, contains, decimal, decimal_text, has_part, lowered, opt_text, same,
    string_range, texts, to_lowercase,
};
use vstd::prelude::*;

verus! {

/// A line of the menu: a genre with the number of its games that are shown, or a
/// game.
#[derive(Debug)]
pub enum ViewItem {
    Group { genre: String, count: usize, expanded: bool },
    Game(usize),
}

/// A line of the menu.
pub enum Entry {
    Group { genre: Seq<char>, count: nat, expanded: bool },
    Game(int),
}

impl View for ViewItem {
    type V = Entry;

    open spec fn view(&self) -> Entry {
        match *self {
            ViewItem::Group { genre, count, expanded } => Entry::Group {
                genre: genre@,
                count: count as nat,
                expanded,
            },
            ViewItem::Game(i) => Entry::Game(i as int),
        }
    }
}

pub open spec fn view_entries(v: Seq<ViewItem>) -> Seq<Entry> {
    v.map_values(|i: ViewItem| i@)
}

/// What an input comes to.
#[derive(Clone, Copy, PartialEq, Eq, Structural, Debug)]
pub enum MenuAction {
    Stay,
    Quit,
    /// This row was chosen.
    Chosen(usize),
}

/// A row matches a filter in lower case.
pub open spec fn matches_filter(g: Game, q: Seq<char>) -> bool {
    q.len() == 0 || has_part(lowered(g.title), q)
}

/// The rows of a section that match, of its first `n`.
pub open spec fn matching_rows(gs: Seq<Game>, idxs: Seq<int>, q: Seq<char>, n: int) -> Seq<int>
    decreases n,
{
    if n <= 0 {
        Seq::empty()
    } else if matches_filter(gs[idxs[n - 1]], q) {
        matching_rows(gs, idxs, q, n - 1).push(idxs[n - 1])
    } else {
        matching_rows(gs, idxs, q, n - 1)
    }
}

/// The lines of a section: nothing when no game matches; its games when it is open or
/// there is a filter.
pub open spec fn section_entries(
    gs: Seq<Game>,
    s: Section,
    open: Set<Seq<char>>,
    q: Seq<char>,
) -> Seq<Entry> {
    let m = matching_rows(gs, s.1, q, s.1.len() as int);
    let expanded = q.len() > 0 || open.contains(s.0);
    if m.len() == 0 {
        Seq::empty()
    } else {
        seq![Entry::Group { genre: s.0, count: m.len(), expanded }] + if expanded {
            m.map_values(|i: int| Entry::Game(i))
        } else {
            Seq::empty()
        }
    }
}

/// The lines of the first `n` sections.
pub open spec fn menu_entries(
    gs: Seq<Game>,
    ss: Seq<Section>,
    open: Set<Seq<char>>,
    q: Seq<char>,
    n: int,
) -> Seq<Entry>
    decreases n,
{
    if n <= 0 {
        Seq::empty()
    } else {
        menu_entries(gs, ss, open, q, n - 1) + section_entries(gs, ss[n - 1], open, q)
    }
}

/// The menu.
pub struct Menu {
    pub all: Vec<Row>,
    pub groups: Vec<(String, Vec<usize>)>,
    /// The genres that are open.
    pub gopen: Vec<String>,
    pub filter: String,
    /// The cursor, and the first line that is visible.
    pub sel: usize,
    pub top: usize,
    /// The card with the details is shown.
    pub detail_open: bool,
    pub view: Vec<ViewItem>,
    pub local_count: usize,
}

/// The state of a menu.
#[verifier::ext_equal]
pub struct Shown {
    pub open: Set<Seq<char>>,
    pub filter: Seq<char>,
    pub sel: int,
    pub top: int,
    pub detail: bool,
    pub view: Seq<Entry>,
}

/// How many of the rows are on disk.
pub open spec fn count_local(gs: Seq<Game>) -> nat
    decreases gs.len(),
{
    if gs.len() == 0 {
        0
    } else {
        count_local(gs.drop_last()) + if gs.last().local() {
            1nat
        } else {
            0nat
        }
    }
}

/// The rows and the sections that a menu is of.
pub struct Stock {
    pub gs: Seq<Game>,
    pub ss: Seq<Section>,
}

impl Menu {
    pub open spec fn stock(self) -> Stock {
        Stock { gs: games(self.all@), ss: groups_view(self.groups@) }
    }

    pub open spec fn shown(self) -> Shown {
        Shown {
            open: texts(self.gopen@).to_set(),
            filter: self.filter@,
            sel: self.sel as int,
            top: self.top as int,
            detail: self.detail_open,
            view: view_entries(self.view@),
        }
    }

    /// Every row of every section is there.
    pub open spec fn rows_there(self) -> bool {
        forall|g: int, k: int|
            0 <= g < self.groups@.len() && 0 <= k < self.groups@[g].1@.len() ==> (
            #[trigger] self.groups@[g].1@[k]) < self.all@.len()
    }

    /// The menu shows what its filter and its open genres say, with the cursor on a
    /// line.
    pub open spec fn wf(self) -> bool {
        &&& self.rows_there()
        &&& self.shown().view == self.stock().entries(self.shown().open, self.shown().filter)
        &&& self.sel < self.view@.len() || (self.sel == 0 && self.view@.len() == 0)
        &&& forall|i: int|
            0 <= i < self.view@.len() ==> (#[trigger] self.view@[i] matches ViewItem::Game(r)
                ==> r < self.all@.len())
    }
}

impl Stock {
    pub open spec fn entries(self, open: Set<Seq<char>>, filter: Seq<char>) -> Seq<Entry> {
        menu_entries(self.gs, self.ss, open, lowered(filter), self.ss.len() as int)
    }
}

/// A cursor kept within `n` lines.
pub open spec fn kept_within(sel: int, n: int) -> int {
    if sel >= n {
        max_int(0, n - 1)
    } else {
        sel
    }
}

/// The place of the first line with a genre; `other` when there is none.
pub open spec fn genre_line(v: Seq<Entry>, genre: Seq<char>, from: int, other: int) -> int
    decreases v.len() - from,
{
    if from < 0 || from >= v.len() {
        other
    } else {
        match v[from] {
            Entry::Group { genre: g, .. } => if g == genre {
                from
            } else {
                genre_line(v, genre, from + 1, other)
            },
            _ => genre_line(v, genre, from + 1, other),
        }
    }
}

impl Shown {
    /// With the lines brought up to date.
    pub open spec fn rebuilt(self, st: Stock) -> Shown {
        let view = st.entries(self.open, self.filter);
        Shown { view, sel: kept_within(self.sel, view.len() as int), ..self }
    }

    /// With another filter: from the top, the card closed.
    pub open spec fn with_filter(self, st: Stock, f: Seq<char>) -> Shown {
        Shown { filter: f, sel: 0, top: 0, detail: false, ..self }.rebuilt(st)
    }

    /// With a genre opened or closed, and the cursor on it.
    pub open spec fn with_group(self, st: Stock, genre: Seq<char>, want_open: bool) -> Shown {
        let open = if want_open {
            self.open.insert(genre)
        } else {
            self.open.remove(genre)
        };
        let r = Shown { open, ..self }.rebuilt(st);
        Shown { sel: genre_line(r.view, genre, 0, r.sel), ..r }
    }

    /// With the cursor moved: the card closes.
    pub open spec fn moved(self, delta: int) -> Shown {
        let n = self.view.len() as int;
        if n == 0 {
            self
        } else {
            Shown { sel: min_int(max_int(self.sel + delta, 0), n - 1), detail: false, ..self }
        }
    }

    /// The line under the cursor.
    pub open spec fn current(self) -> Option<Entry> {
        if 0 <= self.sel < self.view.len() {
            Some(self.view[self.sel])
        } else {
            None
        }
    }
}

/// A character that is not printed.
pub open spec fn is_control(c: char) -> bool {
    let u = c as u32;
    u <= 0x1f || 0x7f <= u <= 0x9f
}

impl Shown {
    /// The state and the outcome of a key.
    pub open spec fn after_key(self, st: Stock, key: Key) -> (Shown, MenuAction) {
        match key {
            Key::Char(c) => if c == 'q' {
                (self, MenuAction::Quit)
            } else if is_control(c) {
                (self, MenuAction::Stay)
            } else {
                (self.with_filter(st, self.filter.push(c)), MenuAction::Stay)
            },
            Key::Esc => if self.filter.len() > 0 {
                (self.with_filter(st, Seq::empty()), MenuAction::Stay)
            } else {
                (self, MenuAction::Quit)
            },
            Key::Up => (self.moved(-1), MenuAction::Stay),
            Key::Down => (self.moved(1), MenuAction::Stay),
            Key::Right | Key::Tab => (
                match self.current() {
                    Some(Entry::Group { genre, .. }) => self.with_group(st, genre, true),
                    Some(Entry::Game(_)) => Shown { detail: true, ..self },
                    None => self,
                },
                MenuAction::Stay,
            ),
            Key::Left => (
                match self.current() {
                    Some(Entry::Group { genre, .. }) => self.with_group(st, genre, false),
                    Some(Entry::Game(i)) => if self.detail {
                        Shown { detail: false, ..self }
                    } else {
                        self.with_group(st, st.gs[i].genre_name(), false)
                    },
                    None => self,
                },
                MenuAction::Stay,
            ),
            Key::Enter => match self.current() {
                Some(Entry::Group { genre, .. }) => (
                    self.with_group(st, genre, !self.open.contains(genre)),
                    MenuAction::Stay,
                ),
                Some(Entry::Game(i)) => (self, MenuAction::Chosen(i as usize)),
                None => (self, MenuAction::Stay),
            },
            Key::Backspace => (
                if self.filter.len() > 0 {
                    self.with_filter(st, self.filter.drop_last())
                } else {
                    self
                },
                MenuAction::Stay,
            ),
            Key::Other => (self, MenuAction::Stay),
        }
    }
}

// ---- building the lines ---------------------------------------------------------------------------------

fn is_open(v: &Vec<String>, genre: &str) -> (r: bool)
    ensures
        r == texts(v@).to_set().contains(genre@),
{
    let mut i: usize = 0;
    while i < v.len()
        invariant
            i <= v@.len(),
            forall|k: int| 0 <= k < i ==> texts(v@)[k] != genre@,
        decreases v@.len() - i,
    {
        assert(texts(v@)[i as int] == v@[i as int]@);
        if same(v[i].as_str(), genre) {
            assert(texts(v@).contains(genre@));
            return true;
        }
        i += 1;
    }
    assert(texts(v@).len() == v@.len());
    assert(!texts(v@).contains(genre@));
    false
}

fn open_genre(v: &mut Vec<String>, genre: &str)
    ensures
        texts(final(v)@).to_set() == texts(old(v)@).to_set().insert(genre@),
{
    let ghost was = texts(v@);
    if is_open(v, genre) {
        assert(was.to_set().insert(genre@) =~= was.to_set());
    } else {
        let g = genre.to_owned();
        v.push(g);
        assert(texts(v@) =~= was.push(genre@));
        assert forall|t: Seq<char>| texts(v@).to_set().contains(t) <==> was.to_set().insert(
            genre@,
        ).contains(t) by {
            if was.contains(t) {
                let k = choose|k: int| 0 <= k < was.len() && was[k] == t;
                assert(was.push(genre@)[k] == t);
            }
            if was.push(genre@).contains(t) && t != genre@ {
                let k = choose|k: int| 0 <= k < was.push(genre@).len() && was.push(genre@)[k] == t;
                assert(was[k] == t);
            }
            assert(was.push(genre@)[was.len() as int] == genre@);
        }
        assert(texts(v@).to_set() =~= was.to_set().insert(genre@));
    }
}

fn close_genre(v: &Vec<String>, genre: &str) -> (r: Vec<String>)
    ensures
        texts(r@).to_set() == texts(v@).to_set().remove(genre@),
{
    let ghost all = texts(v@);
    let mut r: Vec<String> = Vec::new();
    let mut i: usize = 0;
    assert(texts(r@).to_set() =~= all.take(0).to_set().remove(genre@));
    while i < v.len()
        invariant
            all == texts(v@),
            i <= v@.len(),
            texts(r@).to_set() == all.take(i as int).to_set().remove(genre@),
        decreases v@.len() - i,
    {
        let ghost before = texts(r@);
        let ghost x = v@[i as int]@;
        proof {
            assert(all[i as int] == x);
            assert(all.take(i + 1) =~= all.take(i as int).push(x));
            lemma_push_set(all.take(i as int), x);
        }
        if !same(v[i].as_str(), genre) {
            let g = v[i].clone();
            r.push(g);
            proof {
                assert(texts(r@) =~= before.push(x));
                lemma_push_set(before, x);
                assert(texts(r@).to_set() =~= all.take(i + 1).to_set().remove(genre@));
            }
        } else {
            assert(texts(r@).to_set() =~= all.take(i + 1).to_set().remove(genre@));
        }
        i += 1;
    }
    assert(all.take(i as int) =~= all);
    r
}

proof fn lemma_push_set(s: Seq<Seq<char>>, x: Seq<char>)
    ensures
        s.push(x).to_set() == s.to_set().insert(x),
{
    assert forall|t: Seq<char>| s.push(x).to_set().contains(t) <==> s.to_set().insert(x).contains(
        t,
    ) by {
        if s.contains(t) {
            let k = choose|k: int| 0 <= k < s.len() && s[k] == t;
            assert(s.push(x)[k] == t);
        }
        if s.push(x).contains(t) && t != x {
            let k = choose|k: int| 0 <= k < s.push(x).len() && s.push(x)[k] == t;
            assert(s[k] == t);
        }
        assert(s.push(x)[s.len() as int] == x);
    }
    assert(s.push(x).to_set() =~= s.to_set().insert(x));
}

fn row_matches(row: &Row, q: &str) -> (r: bool)
    ensures
        r == matches_filter(row@, q@),
{
    q.is_empty() || contains(to_lowercase(row.title.as_str()).as_str(), q)
}

fn add_section(
    view: &mut Vec<ViewItem>,
    all: &Vec<Row>,
    s: &(String, Vec<usize>),
    gopen: &Vec<String>,
    q: &str,
)
    requires
        forall|k: int| 0 <= k < s.1@.len() ==> #[trigger] s.1@[k] < all@.len(),
        forall|i: int|
            0 <= i < old(view)@.len() ==> (#[trigger] old(view)@[i] matches ViewItem::Game(r) ==> r
                < all@.len()),
    ensures
        view_entries(final(view)@) == view_entries(old(view)@) + section_entries(
            games(all@),
            group_view(*s),
            texts(gopen@).to_set(),
            q@,
        ),
        forall|i: int|
            0 <= i < final(view)@.len() ==> (#[trigger] final(view)@[i] matches ViewItem::Game(r)
                ==> r < all@.len()),
{
    let ghost start = view@;
    let ghost gs = games(all@);
    let ghost idxs = group_view(*s).1;
    let mut m: Vec<usize> = Vec::new();
    let mut n: usize = 0;
    assert(m@.map_values(|i: usize| i as int) =~= matching_rows(gs, idxs, q@, 0));
    while n < s.1.len()
        invariant
            gs == games(all@),
            idxs == group_view(*s).1,
            forall|k: int| 0 <= k < s.1@.len() ==> #[trigger] s.1@[k] < all@.len(),
            n <= s.1@.len(),
            m@.map_values(|i: usize| i as int) == matching_rows(gs, idxs, q@, n as int),
            forall|k: int| 0 <= k < m@.len() ==> #[trigger] m@[k] < all@.len(),
        decreases s.1@.len() - n,
    {
        let i: usize = s.1[n];
        assert(idxs[n as int] == i);
        assert(gs[i as int] == all@[i as int]@);
        if row_matches(&all[i], q) {
            let ghost was = m@;
            m.push(i);
            assert(m@.map_values(|i: usize| i as int) =~= was.map_values(|i: usize| i as int).push(
                i as int,
            ));
        }
        n += 1;
    }
    let ghost found = matching_rows(gs, idxs, q@, idxs.len() as int);
    assert(idxs.len() == s.1@.len());
    assert(m@.map_values(|i: usize| i as int).len() == m@.len());
    if m.len() == 0 {
        assert(view_entries(view@) =~= view_entries(start) + Seq::<Entry>::empty());
        return ;
    }
    let expanded = !q.is_empty() || is_open(gopen, s.0.as_str());
    view.push(ViewItem::Group { genre: s.0.clone(), count: m.len(), expanded });
    let ghost head = Entry::Group { genre: s.0@, count: found.len(), expanded };
    assert(view_entries(view@) =~= view_entries(start) + seq![head]);
    if expanded {
        let mut k: usize = 0;
        assert(view_entries(view@) =~= view_entries(start) + (seq![head] + found.take(0).map_values(
            |i: int| Entry::Game(i),
        )));
        while k < m.len()
            invariant
                m@.map_values(|i: usize| i as int) == found,
                m@.len() == found.len(),
                k <= m@.len(),
                view_entries(view@) == view_entries(start) + (seq![head] + found.take(
                    k as int,
                ).map_values(|i: int| Entry::Game(i))),
                forall|k: int| 0 <= k < m@.len() ==> #[trigger] m@[k] < all@.len(),
                forall|i: int|
                    0 <= i < view@.len() ==> (#[trigger] view@[i] matches ViewItem::Game(r) ==> r
                        < all@.len()),
            decreases m@.len() - k,
        {
            let ghost was = view@;
            assert(m@.map_values(|i: usize| i as int)[k as int] == m@[k as int]);
            view.push(ViewItem::Game(m[k]));
            proof {
                assert(view_entries(view@) =~= view_entries(was).push(
                    Entry::Game(found[k as int]),
                ));
                assert(found.take(k + 1).map_values(|i: int| Entry::Game(i)) =~= found.take(
                    k as int,
                ).map_values(|i: int| Entry::Game(i)).push(Entry::Game(found[k as int])));
                assert(view_entries(view@) =~= view_entries(start) + (seq![head] + found.take(
                    k + 1,
                ).map_values(|i: int| Entry::Game(i))));
            }
            k += 1;
        }
        assert(found.take(k as int) =~= found);
    } else {
        assert(seq![head] + Seq::<Entry>::empty() =~= seq![head]);
    }
}

impl Menu {
    /// A menu of these rows: all genres closed.
    pub fn new(all: Vec<Row>) -> (m: Menu)
        ensures
            m.wf(),
            m.all == all,
            m.local_count == count_local(games(all@)),
            groups_view(m.groups@) == grouped(crate::catalogue::genres(games(all@))),
            m.shown() == (Shown {
                open: Set::empty(),
                filter: Seq::empty(),
                sel: 0,
                top: 0,
                detail: false,
                view: m.stock().entries(Set::empty(), Seq::empty()),
            }),
    {
        let groups = group_by_genre(all.as_slice());
        let ghost gs = games(all@);
        let mut local_count: usize = 0;
        let mut i: usize = 0;
        while i < all.len()
            invariant
                gs == games(all@),
                i <= all@.len(),
                local_count <= i,
                local_count == count_local(gs.take(i as int)),
            decreases all@.len() - i,
        {
            assert(gs.take(i + 1).drop_last() =~= gs.take(i as int));
            assert(gs[i as int] == all@[i as int]@);
            if all[i].is_local() {
                local_count += 1;
            }
            i += 1;
        }
        proof {
            assert(gs.take(i as int) =~= gs);
            lemma_grouped_rows(gs, groups@);
        }
        let mut m = Menu {
            all,
            groups,
            gopen: Vec::new(),
            filter: String::new(),
            sel: 0,
            top: 0,
            detail_open: false,
            view: Vec::new(),
            local_count,
        };
        assert(texts(m.gopen@).to_set() =~= Set::empty());
        m.rebuild();
        m
    }

    /// Brings the lines up to date with the filter and the open genres.
    pub fn rebuild(&mut self)
        requires
            old(self).rows_there(),
        ensures
            final(self).wf(),
            final(self).shown() == old(self).shown().rebuilt(old(self).stock()),
            final(self).all == old(self).all,
            final(self).groups == old(self).groups,
            final(self).local_count == old(self).local_count,
    {
        let ghost st = self.stock();
        let ghost open = texts(self.gopen@).to_set();
        let q = to_lowercase(self.filter.as_str());
        let mut view: Vec<ViewItem> = Vec::new();
        let mut n: usize = 0;
        assert(view_entries(view@) =~= menu_entries(st.gs, st.ss, open, q@, 0));
        while n < self.groups.len()
            invariant
                self.rows_there(),
                *self == *old(self),
                st == self.stock(),
                open == texts(self.gopen@).to_set(),
                n <= self.groups@.len(),
                view_entries(view@) == menu_entries(st.gs, st.ss, open, q@, n as int),
                forall|i: int|
                    0 <= i < view@.len() ==> (#[trigger] view@[i] matches ViewItem::Game(r) ==> r
                        < self.all@.len()),
            decreases self.groups@.len() - n,
        {
            proof {
                assert(st.ss[n as int] == group_view(self.groups@[n as int]));
                assert forall|k: int| 0 <= k < self.groups@[n as int].1@.len() implies (
                #[trigger] self.groups@[n as int].1@[k]) < self.all@.len() by {}
            }
            add_section(&mut view, &self.all, &self.groups[n], &self.gopen, q.as_str());
            n += 1;
        }
        assert(st.ss.len() == self.groups@.len());
        assert(view_entries(view@).len() == view@.len());
        self.view = view;
        if self.sel >= self.view.len() {
            self.sel = if self.view.len() > 0 {
                self.view.len() - 1
            } else {
                0
            };
        }
        assert(self.shown() =~= old(self).shown().rebuilt(st));
    }

    /// Sets the filter.
    pub fn set_filter(&mut self, f: String)
        requires
            old(self).wf(),
        ensures
            final(self).wf(),
            final(self).shown() == old(self).shown().with_filter(old(self).stock(), f@),
            final(self).all == old(self).all,
            final(self).groups == old(self).groups,
            final(self).local_count == old(self).local_count,
    {
        self.filter = f;
        self.sel = 0;
        self.top = 0;
        self.detail_open = false;
        let ghost mid = self.shown();
        assert(mid =~= Shown { filter: f@, sel: 0, top: 0, detail: false, ..old(self).shown() });
        self.rebuild();
    }

    /// Opens or closes a genre, and puts the cursor on it.
    pub fn set_group(&mut self, genre: &str, want_open: bool)
        requires
            old(self).wf(),
        ensures
            final(self).wf(),
            final(self).shown() == old(self).shown().with_group(
                old(self).stock(),
                genre@,
                want_open,
            ),
            final(self).all == old(self).all,
            final(self).groups == old(self).groups,
            final(self).local_count == old(self).local_count,
    {
        if want_open {
            open_genre(&mut self.gopen, genre);
        } else {
            self.gopen = close_genre(&self.gopen, genre);
        }
        let ghost mid = self.shown();
        let ghost open = if want_open {
            old(self).shown().open.insert(genre@)
        } else {
            old(self).shown().open.remove(genre@)
        };
        assert(mid =~= Shown { open, ..old(self).shown() });
        self.rebuild();
        let ghost r = self.shown();
        let ghost st = self.stock();
        let mut i: usize = 0;
        assert(r.view.len() == self.view@.len());
        while i < self.view.len()
            invariant
                self.wf(),
                self.shown() == r,
                st == self.stock(),
                r.view.len() == self.view@.len(),
                r.view == view_entries(self.view@),
                self.all == old(self).all,
                self.groups == old(self).groups,
                self.local_count == old(self).local_count,
                i <= self.view@.len(),
                genre_line(r.view, genre@, 0, r.sel) == genre_line(
                    r.view,
                    genre@,
                    i as int,
                    r.sel,
                ),
                r == (Shown { open, ..old(self).shown() }).rebuilt(old(self).stock()),
                open == (if want_open {
                    old(self).shown().open.insert(genre@)
                } else {
                    old(self).shown().open.remove(genre@)
                }),
            decreases self.view@.len() - i,
        {
            assert(r.view[i as int] == self.view@[i as int]@);
            let here = match &self.view[i] {
                ViewItem::Group { genre: g, .. } => same(g.as_str(), genre),
                ViewItem::Game(_) => false,
            };
            if here {
                self.sel = i;
                assert(self.shown() =~= Shown { sel: i as int, ..r });
                return ;
            }
            i += 1;
        }
        assert(self.shown() =~= Shown { sel: genre_line(r.view, genre@, 0, r.sel), ..r });
    }

    /// Moves the cursor by one line, down or up.
    pub fn move_sel(&mut self, down: bool)
        requires
            old(self).wf(),
        ensures
            final(self).wf(),
            final(self).shown() == old(self).shown().moved(
                if down {
                    1
                } else {
                    -1
                },
            ),
            final(self).all == old(self).all,
            final(self).groups == old(self).groups,
            final(self).local_count == old(self).local_count,
    {
        let n: usize = self.view.len();
        assert(view_entries(self.view@).len() == n);
        if n == 0 {
            return ;
        }
        if down {
            if self.sel < n - 1 {
                self.sel = self.sel + 1;
            }
        } else if self.sel > 0 {
            self.sel = self.sel - 1;
        }
        self.detail_open = false;
        assert(self.shown() =~= old(self).shown().moved(
            if down {
                1
            } else {
                -1
            },
        ));
    }

    /// Handles a key.
    pub fn handle_key(&mut self, key: Key) -> (a: MenuAction)
        requires
            old(self).wf(),
        ensures
            final(self).wf(),
            (final(self).shown(), a) == old(self).shown().after_key(old(self).stock(), key),
            final(self).all == old(self).all,
            final(self).groups == old(self).groups,
            final(self).local_count == old(self).local_count,
    {
        assert(view_entries(self.view@).len() == self.view@.len());
        let ghost cur = self.shown().current();
        match key {
            Key::Char(c) => {
                let u: u32 = c as u32;
                if c == 'q' {
                    return MenuAction::Quit;
                }
                if !(u <= 0x1f || (0x7f <= u && u <= 0x9f)) {
                    let mut f = self.filter.clone();
                    f.push(c);
                    self.set_filter(f);
                }
            },
            Key::Esc => {
                if self.filter.as_str().is_empty() {
                    return MenuAction::Quit;
                }
                self.set_filter(String::new());
            },
            Key::Up => self.move_sel(false),
            Key::Down => self.move_sel(true),
            Key::Right | Key::Tab => {
                if self.sel < self.view.len() {
                    assert(cur == Some(self.view@[self.sel as int]@));
                    let genre = match &self.view[self.sel] {
                        ViewItem::Group { genre, .. } => Some(genre.clone()),
                        ViewItem::Game(_) => None,
                    };
                    match genre {
                        Some(g) => self.set_group(g.as_str(), true),
                        None => {
                            self.detail_open = true;
                            assert(self.shown() =~= Shown { detail: true, ..old(self).shown() });
                        },
                    }
                }
            },
            Key::Left => {
                if self.sel < self.view.len() {
                    assert(cur == Some(self.view@[self.sel as int]@));
                    let (genre, on_game) = match &self.view[self.sel] {
                        ViewItem::Group { genre, .. } => (genre.clone(), false),
                        ViewItem::Game(i) => {
                            assert(self.stock().gs[*i as int] == self.all@[*i as int]@);
                            (self.all[*i].genre_or_other().to_owned(), true)
                        },
                    };
                    if on_game && self.detail_open {
                        self.detail_open = false;
                        assert(self.shown() =~= Shown { detail: false, ..old(self).shown() });
                    } else {
                        self.set_group(genre.as_str(), false);
                    }
                }
            },
            Key::Enter => {
                if self.sel < self.view.len() {
                    assert(cur == Some(self.view@[self.sel as int]@));
                    let genre = match &self.view[self.sel] {
                        ViewItem::Group { genre, .. } => genre.clone(),
                        ViewItem::Game(i) => {
                            return MenuAction::Chosen(*i);
                        },
                    };
                    let open = is_open(&self.gopen, genre.as_str());
                    self.set_group(genre.as_str(), !open);
                }
            },
            Key::Backspace => {
                let v = chars_of(self.filter.as_str());
                if v.len() > 0 {
                    let f = string_range(&v, 0, v.len() - 1);
                    assert(f@ =~= self.filter@.drop_last());
                    self.set_filter(f);
                }
            },
            Key::Other => {},
        }
        MenuAction::Stay
    }
}

// ---- what is where on the screen ----------------------------------------------------------------------------

/// The height of the card on a screen of so many lines: none unless it is open on a
/// game.
pub open spec fn card_height(s: Shown, lines: u16) -> int {
    if s.detail && (s.current() matches Some(Entry::Game(_))) {
        min_int(max_int(max_int(0, lines - 6), 5), 11)
    } else {
        0
    }
}

/// The lines of the menu that fit beside the card; one in any case.
pub open spec fn line_budget(s: Shown, lines: u16) -> int {
    max_int(1, lines - 2 - card_height(s, lines))
}

/// The first visible line, when the cursor has to be visible.
pub open spec fn scrolled_lines(top: int, sel: int, budget: int, n: int) -> int {
    let t = if sel < top {
        sel
    } else if sel >= top + budget {
        sel + 1 - budget
    } else {
        top
    };
    min_int(t, max_int(0, n - budget))
}

/// Where a line is on the screen: the card pushes down what comes behind the cursor.
pub open spec fn line_y(top: int, sel: int, card_h: int, line: int) -> int {
    1 + (line - top) + if line > sel {
        card_h
    } else {
        0
    }
}

/// A screen of the menu: the lines and where they are, and the card's row and place.
#[derive(Debug)]
pub struct Screen {
    pub rows: Vec<(u16, usize)>,
    /// The row that the card is of, its first line and its height.
    pub card: Option<(usize, u16, u16)>,
}

impl Screen {
    /// The screen shows the menu from `top` on.
    pub open spec fn shows(self, s: Shown, top: int, lines: u16) -> bool {
        let card_h = card_height(s, lines);
        let end = min_int(top + line_budget(s, lines), s.view.len() as int);
        &&& self.rows@ == Seq::new(
            max_int(0, end - top) as nat,
            |k: int| (line_y(top, s.sel, card_h, top + k) as u16, (top + k) as usize),
        )
        &&& self.card == match s.current() {
            Some(Entry::Game(i)) => if s.detail {
                Some(
                    (
                        i as usize,
                        (line_y(top, s.sel, card_h, s.sel) + 1) as u16,
                        card_h as u16,
                    ),
                )
            } else {
                None
            },
            _ => None,
        }
    }
}

/// The height that an open card has on a screen of so many lines.
fn open_card_height(lines: u16) -> (h: u16)
    requires
        lines >= 3,
    ensures
        h == min_int(max_int(max_int(0, lines - 6), 5), 11),
{
    if lines < 11 {
        5
    } else if lines > 17 {
        11
    } else {
        lines - 6
    }
}

/// The first visible line, when the cursor has to be visible.
fn scroll_lines(top: usize, sel: usize, budget: usize, n: usize) -> (r: usize)
    requires
        budget >= 1,
    ensures
        r == scrolled_lines(top as int, sel as int, budget as int, n as int),
        r <= n,
{
    let t: usize = if sel < top {
        sel
    } else if sel - top >= budget {
        sel - budget + 1
    } else {
        top
    };
    let max_top: usize = if n > budget {
        n - budget
    } else {
        0
    };
    if t > max_top {
        max_top
    } else {
        t
    }
}

/// The lines from `top` up to `end`, and where they are.
fn place_lines(top: usize, end: usize, sel: usize, card_h: u16) -> (rows: Vec<(u16, usize)>)
    requires
        top <= end,
        end - top + card_h <= 0xfffe,
    ensures
        rows@ == Seq::new(
            (end - top) as nat,
            |k: int|
                (line_y(top as int, sel as int, card_h as int, top + k) as u16, (top + k) as usize),
        ),
{
    let mut rows: Vec<(u16, usize)> = Vec::new();
    let mut vi: usize = top;
    while vi < end
        invariant
            top <= vi <= end,
            end - top + card_h <= 0xfffe,
            rows@.len() == vi - top,
            forall|k: int|
                0 <= k < rows@.len() ==> #[trigger] rows@[k] == (
                    line_y(top as int, sel as int, card_h as int, top + k) as u16,
                    (top + k) as usize,
                ),
        decreases end - vi,
    {
        let y: u16 = 1 + (vi - top) as u16 + if vi > sel {
            card_h
        } else {
            0
        };
        rows.push((y, vi));
        vi += 1;
    }
    assert(rows@ =~= Seq::new(
        (end - top) as nat,
        |k: int|
            (line_y(top as int, sel as int, card_h as int, top + k) as u16, (top + k) as usize),
    ));
    rows
}

impl Menu {
    /// Lays the menu out on a screen of so many lines, scrolled so that the cursor is
    /// visible. A screen of fewer than three lines shows nothing.
    pub fn lay_out(&mut self, lines: u16) -> (r: Option<Screen>)
        requires
            old(self).wf(),
        ensures
            final(self).wf(),
            match r {
                Some(screen) => {
                    let s = old(self).shown();
                    let top = scrolled_lines(
                        s.top,
                        s.sel,
                        line_budget(s, lines),
                        s.view.len() as int,
                    );
                    &&& lines >= 3
                    &&& final(self).shown() == (Shown { top, ..s })
                    &&& screen.shows(s, top, lines)
                },
                None => lines < 3 && *final(self) == *old(self),
            },
            final(self).all == old(self).all,
            final(self).groups == old(self).groups,
            final(self).local_count == old(self).local_count,
    {
        if lines < 3 {
            return None;
        }
        let ghost s = self.shown();
        assert(s.view.len() == self.view@.len());
        let n: usize = self.view.len();
        let game: Option<usize> = if self.sel < n {
            assert(s.current() == Some(self.view@[self.sel as int]@));
            match &self.view[self.sel] {
                ViewItem::Game(i) => Some(*i),
                ViewItem::Group { .. } => None,
            }
        } else {
            None
        };
        let card_h: u16 = if self.detail_open && game.is_some() {
            open_card_height(lines)
        } else {
            0
        };
        assert(card_h == card_height(s, lines));
        let body: u16 = lines - 2;
        let budget: usize = if body > card_h {
            (body - card_h) as usize
        } else {
            1
        };
        assert(budget == line_budget(s, lines));
        let sel: usize = self.sel;
        let top: usize = scroll_lines(self.top, sel, budget, n);
        self.top = top;
        assert(self.shown() =~= Shown { top: top as int, ..s });
        let end: usize = if n - top > budget {
            top + budget
        } else {
            n
        };
        let rows = place_lines(top, end, sel, card_h);
        let card = match game {
            Some(i) => if self.detail_open {
                Some((i, (1 + (sel - top) + 1) as u16, card_h))
            } else {
                None
            },
            None => None,
        };
        assert(end - top == max_int(
            0,
            min_int(top + line_budget(s, lines), s.view.len() as int) - top,
        ));
        Some(Screen { rows, card })
    }
}

/// The line of the menu that a row of the screen belongs to: the card belongs to the
/// line it is of.
pub open spec fn line_at(rows: Seq<(u16, usize)>, card: Option<(usize, u16, u16)>, sel: int, y: u16, n: int) -> Option<
    int,
>
    decreases n,
{
    if n <= 0 {
        match card {
            Some((_, from, h)) => if from <= y < from + h {
                Some(sel)
            } else {
                None
            },
            None => None,
        }
    } else if rows[n - 1].0 == y {
        Some(rows[n - 1].1 as int)
    } else {
        line_at(rows, card, sel, y, n - 1)
    }
}

impl Shown {
    /// The state after the mouse, on this screen.
    pub open spec fn after_mouse(
        self,
        m: Mouse,
        rows: Seq<(u16, usize)>,
        card: Option<(usize, u16, u16)>,
    ) -> Shown {
        match m {
            Mouse::ScrollUp => self.moved(-1),
            Mouse::ScrollDown => self.moved(1),
            Mouse::Click { column, row } => match line_at(
                rows,
                card,
                self.sel,
                row,
                rows.len() as int,
            ) {
                Some(i) => Shown { sel: i, detail: false, ..self },
                None => self,
            },
            Mouse::Other => self,
        }
    }
}

impl Menu {
    /// Handles the mouse on a screen that was laid out.
    pub fn handle_mouse(&mut self, m: Mouse, screen: &Screen)
        requires
            old(self).wf(),
            forall|k: int|
                0 <= k < screen.rows@.len() ==> (#[trigger] screen.rows@[k]).1
                    < old(self).view@.len(),
        ensures
            final(self).wf(),
            final(self).shown() == old(self).shown().after_mouse(m, screen.rows@, screen.card),
            final(self).all == old(self).all,
            final(self).groups == old(self).groups,
            final(self).local_count == old(self).local_count,
    {
        match m {
            Mouse::ScrollUp => self.move_sel(false),
            Mouse::ScrollDown => self.move_sel(true),
            Mouse::Click { column, row } => {
                let ghost s = self.shown();
                let mut n: usize = screen.rows.len();
                while n > 0
                    invariant
                        *self == *old(self),
                        self.wf(),
                        s == self.shown(),
                        forall|k: int|
                            0 <= k < screen.rows@.len() ==> (#[trigger] screen.rows@[k]).1
                                < self.view@.len(),
                        n <= screen.rows@.len(),
                        line_at(
                            screen.rows@,
                            screen.card,
                            s.sel,
                            row,
                            screen.rows@.len() as int,
                        ) == line_at(screen.rows@, screen.card, s.sel, row, n as int),
                        m == (Mouse::Click { column, row }),
                    decreases n,
                {
                    n -= 1;
                    if screen.rows[n].0 == row {
                        self.sel = screen.rows[n].1;
                        self.detail_open = false;
                        assert(self.shown() =~= Shown {
                            sel: self.sel as int,
                            detail: false,
                            ..s
                        });
                        return ;
                    }
                }
                match screen.card {
                    Some((_, from, h)) => if from <= row && row - from < h {
                        self.detail_open = false;
                        assert(self.shown() =~= Shown { sel: s.sel, detail: false, ..s });
                    },
                    None => {},
                }
            },
            Mouse::Other => {},
        }
    }
}

// ---- the texts of the lines ------------------------------------------------------------------------------------

/// The line of a genre, across the screen.
pub open spec fn genre_text(genre: Seq<char>, count: nat, expanded: bool, width: u16) -> Seq<char> {
    let caret = if expanded {
        "\u{25be}"@
    } else {
        "\u{25b8}"@
    };
    let name = uppered(cut(genre, max_int(0, width - 14)));
    let t = " "@ + caret + " "@ + name + "  ("@ + decimal(count) + ") "@;
    t + repeated(' ', width - t.len())
}

/// The line of a genre.
pub fn group_line(genre: &str, count: usize, expanded: bool, width: u16) -> (r: String)
    ensures
        r@ == genre_text(genre@, count as nat, expanded, width),
{
    let room: usize = if width > 14 {
        (width - 14) as usize
    } else {
        0
    };
    let name = to_uppercase(trunc(genre, room).as_str());
    let mut t = append(
        " ",
        if expanded {
            "\u{25be}"
        } else {
            "\u{25b8}"
        },
    );
    t.append(" ");
    t.append(name.as_str());
    t.append("  (");
    t.append(decimal_text(count as u64).as_str());
    t.append(") ");
    let used: usize = chars_of(t.as_str()).len();
    let ghost text = t@;
    if used < width as usize {
        t.append(repeat(' ', width as usize - used).as_str());
    } else {
        assert(text + repeated(' ', width - text.len()) =~= text);
    }
    t
}

/// The line of a game: what stands before its title, the title cut to the room there
/// is, the space behind it, and what Enter does.
#[verifier::ext_equal]
pub struct GameLine {
    pub left: Seq<char>,
    pub label: Seq<char>,
    pub pad: Seq<char>,
    pub button: Seq<char>,
}

pub open spec fn game_text(g: Game, width: u16, caret_down: bool) -> GameLine {
    let left = "    "@ + (if caret_down {
        "\u{25be}"@
    } else {
        " "@
    }) + (if g.local() {
        "\u{25cf}"@
    } else {
        "\u{2b07}"@
    }) + " "@;
    let label = cut(g.title, max_int(1, width - (left.len() + 8)));
    GameLine {
        left,
        label,
        pad: repeated(' ', max_int(1, width - (left.len() + label.len() + 6))),
        button: if g.local() {
            "\u{21b5} Play"@
        } else {
            "\u{21b5} Get "@
        },
    }
}

/// The line of a game, in its parts.
pub fn game_line(row: &Row, width: u16, caret_down: bool) -> (r: (String, String, String, String))
    ensures
        (GameLine { left: r.0@, label: r.1@, pad: r.2@, button: r.3@ }) == game_text(
            row@,
            width,
            caret_down,
        ),
{
    let local = row.is_local();
    let mut left = append(
        "    ",
        if caret_down {
            "\u{25be}"
        } else {
            " "
        },
    );
    left.append(
        if local {
            "\u{25cf}"
        } else {
            "\u{2b07}"
        },
    );
    left.append(" ");
    proof {
        reveal_strlit("    ");
        reveal_strlit("\u{25be}");
        reveal_strlit(" ");
        reveal_strlit("\u{25cf}");
        reveal_strlit("\u{2b07}");
        assert(left@.len() == 7);
    }
    let room: usize = if width > 16 {
        (width - 15) as usize
    } else {
        1
    };
    let label = trunc(row.title.as_str(), room);
    let used: usize = chars_of(label.as_str()).len();
    let pad: usize = if used < width as usize && width as usize - used > 14 {
        width as usize - used - 13
    } else {
        1
    };
    let button = if local {
        "\u{21b5} Play".to_string()
    } else {
        "\u{21b5} Get ".to_string()
    };
    (left, label, repeat(' ', pad), button)
}

// ---- the text of the card ------------------------------------------------------------------------------------------

/// A line of the card: its text, and whether it stands out.
#[derive(Debug)]
pub struct CardLine {
    pub text: String,
    pub bold: bool,
}

pub open spec fn card_lines(v: Seq<CardLine>) -> Seq<(Seq<char>, bool)> {
    v.map_values(|l: CardLine| (l.text@, l.bold))
}

/// The value of the last row with a label.
pub open spec fn value_of(rows: Entries, label: Seq<char>, n: int) -> Option<Seq<char>>
    decreases n,
{
    if n <= 0 {
        None
    } else if rows[n - 1].0 == label {
        Some(rows[n - 1].1)
    } else {
        value_of(rows, label, n - 1)
    }
}

pub open spec fn value(r: Info, label: Seq<char>) -> Option<Seq<char>> {
    value_of(r.rows, label, r.rows.len() as int)
}

/// Two values with a dot between them, where they are there.
pub open spec fn dotted(a: Option<Seq<char>>, b: Option<Seq<char>>) -> Option<Seq<char>> {
    match (a, b) {
        (Some(x), Some(y)) => Some(x + " \u{b7} "@ + y),
        (Some(x), None) => Some(x),
        (None, y) => y,
    }
}

pub open spec fn with_mark(mark: Seq<char>, v: Option<Seq<char>>) -> Option<Seq<char>> {
    match v {
        Some(s) => Some(mark + s),
        None => None,
    }
}

/// A dim line, cut to the width, where there is a value.
pub open spec fn dim_line(v: Option<Seq<char>>, right: int) -> Seq<(Seq<char>, bool)> {
    match v {
        Some(s) => seq![(cut(s, right), false)],
        None => Seq::empty(),
    }
}

/// The facts on the card.
pub open spec fn facts(r: Info, right: int) -> Seq<(Seq<char>, bool)> {
    dim_line(value(r, "Genre"@), right) + dim_line(
        dotted(value(r, "Publisher"@), value(r, "Developer"@)),
        right,
    ) + dim_line(
        dotted(value(r, "Programmer"@), with_mark("\u{266a} "@, value(r, "Music"@))),
        right,
    ) + dim_line(
        dotted(
            dotted(value(r, "Players"@), with_mark("\u{2605}"@, value(r, "Rating"@))),
            match value(r, "Classic"@) {
                Some(_) => Some("classic"@),
                None => None,
            },
        ),
        right,
    ) + dim_line(value(r, "Language"@), right)
}

/// The note on the card, as far as there is room: an empty line and the wrapped note.
pub open spec fn with_note(
    ls: Seq<(Seq<char>, bool)>,
    note: Option<Seq<char>>,
    right: int,
    max_lines: int,
) -> Seq<(Seq<char>, bool)> {
    match note {
        Some(n) => if ls.len() < max_lines - 1 {
            let lines = wrapped(words_from(n, 0), right).map_values(|w: Seq<char>| (w, false));
            let room = max_lines - ls.len() - 1;
            ls.push((Seq::empty(), false)) + if lines.len() > room {
                lines.take(room)
            } else {
                lines
            }
        } else {
            ls
        },
        None => ls,
    }
}

pub open spec fn at_most(ls: Seq<(Seq<char>, bool)>, n: int) -> Seq<(Seq<char>, bool)> {
    if ls.len() > n {
        ls.take(n)
    } else {
        ls
    }
}

/// The lines of the card.
pub open spec fn card_text(
    title: Seq<char>,
    rec: Option<Info>,
    right: int,
    max_lines: int,
) -> Seq<(Seq<char>, bool)> {
    match rec {
        Some(r) => {
            let head = title + (match r.year {
                Some(y) => "  ("@ + y + ")"@,
                None => Seq::empty(),
            });
            at_most(
                with_note(seq![(head, true)] + facts(r, right), r.note, right, max_lines),
                max_lines,
            )
        },
        None => at_most(
            seq![(title, true), ("(no GameBase64 entry)"@, false)],
            max_lines,
        ),
    }
}

fn find_value(rows: &Vec<(String, String)>, label: &str) -> (r: Option<String>)
    ensures
        opt_text(r) == value_of(entries(rows@), label@, rows@.len() as int),
{
    let mut n: usize = rows.len();
    while n > 0
        invariant
            n <= rows@.len(),
            value_of(entries(rows@), label@, rows@.len() as int) == value_of(
                entries(rows@),
                label@,
                n as int,
            ),
        decreases n,
    {
        n -= 1;
        assert(entries(rows@)[n as int] == (rows@[n as int].0@, rows@[n as int].1@));
        if same(rows[n].0.as_str(), label) {
            return Some(rows[n].1.clone());
        }
    }
    None
}

fn dot(a: Option<String>, b: Option<String>) -> (r: Option<String>)
    ensures
        opt_text(r) == dotted(opt_text(a), opt_text(b)),
{
    match (a, b) {
        (Some(x), Some(y)) => Some(append(append(x.as_str(), " \u{b7} ").as_str(), y.as_str())),
        (Some(x), None) => Some(x),
        (None, y) => y,
    }
}

fn mark(m: &str, v: Option<String>) -> (r: Option<String>)
    ensures
        opt_text(r) == with_mark(m@, opt_text(v)),
{
    match v {
        Some(s) => Some(append(m, s.as_str())),
        None => None,
    }
}

fn push_line(ls: &mut Vec<CardLine>, text: String, bold: bool)
    ensures
        card_lines(final(ls)@) == card_lines(old(ls)@).push((text@, bold)),
{
    let ghost was = ls@;
    ls.push(CardLine { text, bold });
    assert(card_lines(ls@) =~= card_lines(was).push((text@, bold)));
}

fn push_dim(ls: &mut Vec<CardLine>, v: Option<String>, right: usize)
    ensures
        card_lines(final(ls)@) == card_lines(old(ls)@) + dim_line(opt_text(v), right as int),
{
    let ghost was = card_lines(ls@);
    match v {
        Some(s) => {
            push_line(ls, trunc(s.as_str(), right), false);
            assert(card_lines(ls@) =~= was + seq![(cut(s@, right as int), false)]);
        },
        None => {
            assert(card_lines(ls@) =~= was + Seq::<(Seq<char>, bool)>::empty());
        },
    }
}

/// Adds the facts to the card.
fn push_facts(ls: &mut Vec<CardLine>, i: &InfoRecord, right: usize)
    ensures
        card_lines(final(ls)@) == card_lines(old(ls)@) + facts(i@, right as int),
{
    let ghost was = card_lines(ls@);
    push_dim(ls, find_value(&i.rows, "Genre"), right);
    push_dim(ls, dot(find_value(&i.rows, "Publisher"), find_value(&i.rows, "Developer")), right);
    let music = mark("\u{266a} ", find_value(&i.rows, "Music"));
    push_dim(ls, dot(find_value(&i.rows, "Programmer"), music), right);
    let rating = mark("\u{2605}", find_value(&i.rows, "Rating"));
    let classic = match find_value(&i.rows, "Classic") {
        Some(_) => Some("classic".to_string()),
        None => None,
    };
    push_dim(ls, dot(dot(find_value(&i.rows, "Players"), rating), classic), right);
    push_dim(ls, find_value(&i.rows, "Language"), right);
    assert(card_lines(ls@) =~= was + facts(i@, right as int));
}

/// Adds the note to the card, as far as there is room.
fn push_note(ls: &mut Vec<CardLine>, note: &Option<String>, right: usize, max_lines: usize)
    ensures
        card_lines(final(ls)@) == with_note(
            card_lines(old(ls)@),
            opt_text(*note),
            right as int,
            max_lines as int,
        ),
{
    let ghost full = card_lines(ls@);
    assert(full.len() == ls@.len());
    match note {
        Some(n) => if max_lines > 0 && ls.len() < max_lines - 1 {
            let none = String::new();
            assert(none@ =~= Seq::empty());
            push_line(ls, none, false);
            let ghost base = card_lines(ls@);
            assert(base.len() == ls@.len());
            let room: usize = max_lines - ls.len();
            let lines = wrap(n.as_str(), right);
            let ghost all = texts(lines@).map_values(|w: Seq<char>| (w, false));
            let mut k: usize = 0;
            assert(base + all.take(0) =~= base);
            while k < lines.len() && k < room
                invariant
                    all == texts(lines@).map_values(|w: Seq<char>| (w, false)),
                    k <= lines@.len(),
                    k <= room,
                    card_lines(ls@) == base + all.take(k as int),
                decreases lines@.len() - k,
            {
                assert(all[k as int] == (lines@[k as int]@, false));
                push_line(ls, lines[k].clone(), false);
                assert(base + all.take(k + 1) =~= (base + all.take(k as int)).push(all[k as int]));
                k += 1;
            }
            proof {
                assert(all.len() == lines@.len());
                if all.len() <= room {
                    assert(all.take(k as int) =~= all);
                }
            }
        },
        None => {},
    }
}

/// The lines of the card with the details of a game.
pub fn detail_text(row: &Row, rec: Option<&InfoRecord>, right: usize, max_lines: usize) -> (r: Vec<
    CardLine,
>)
    ensures
        card_lines(r@) == card_text(
            row@.title,
            match rec {
                Some(i) => Some(i@),
                None => None,
            },
            right as int,
            max_lines as int,
        ),
{
    let mut ls: Vec<CardLine> = Vec::new();
    assert(card_lines(ls@) =~= Seq::empty());
    match rec {
        Some(i) => {
            let ghost info = i@;
            let mut head = row.title.clone();
            match &i.year {
                Some(y) => {
                    head.append("  (");
                    head.append(y.as_str());
                    head.append(")");
                },
                None => {},
            }
            let ghost top = row@.title + (match info.year {
                Some(y) => "  ("@ + y + ")"@,
                None => Seq::empty(),
            });
            assert(head@ =~= top);
            push_line(&mut ls, head, true);
            assert(card_lines(ls@) =~= seq![(top, true)]);
            push_facts(&mut ls, i, right);
            push_note(&mut ls, &i.note, right, max_lines);
        },
        None => {
            push_line(&mut ls, row.title.clone(), true);
            push_line(&mut ls, "(no GameBase64 entry)".to_string(), false);
            assert(card_lines(ls@) =~= seq![
                (row@.title, true),
                ("(no GameBase64 entry)"@, false),
            ]);
        },
    }
    let ghost done = card_lines(ls@);
    assert(done.len() == ls@.len());
    if ls.len() > max_lines {
        ls.truncate(max_lines);
        assert(card_lines(ls@) =~= done.take(max_lines as int));
    }
    ls
}

// ---- laws -----------------------------------------------------------------------------------------------------------

/// After scrolling the cursor's line is visible.
pub proof fn law_cursor_is_visible(top: int, sel: int, budget: int, n: int)
    requires
        0 <= top,
        0 <= sel < n,
        1 <= budget,
    ensures
        0 <= scrolled_lines(top, sel, budget, n) <= sel < scrolled_lines(top, sel, budget, n)
            + budget,
{
}

/// Filtering and clearing the filter leaves the same lines.
pub proof fn law_clearing_restores_the_lines(s: Shown, st: Stock, f: Seq<char>)
    requires
        s.view == st.entries(s.open, s.filter),
        s.filter.len() == 0,
    ensures
        s.with_filter(st, f).with_filter(st, Seq::empty()).view == s.view,
        s.with_filter(st, f).with_filter(st, Seq::empty()).open == s.open,
{
    assert(s.filter =~= Seq::empty());
}

/// Opening a genre and closing it again leaves the same lines.
pub proof fn law_closing_undoes_opening(s: Shown, st: Stock, genre: Seq<char>)
    requires
        s.view == st.entries(s.open, s.filter),
        !s.open.contains(genre),
    ensures
        s.with_group(st, genre, true).with_group(st, genre, false).view == s.view,
        s.with_group(st, genre, true).with_group(st, genre, false).open == s.open,
{
    assert(s.open.insert(genre).remove(genre) =~= s.open);
}

/// Typing a character and taking it back leaves the same filter.
pub proof fn law_backspace_undoes_typing(s: Shown, st: Stock, c: char)
    requires
        c != 'q',
        !is_control(c),
    ensures
        s.after_key(st, Key::Char(c)).0.after_key(st, Key::Backspace).0.filter == s.filter,
{
    assert(s.filter.push(c).drop_last() =~= s.filter);
}

/// The card never has more lines than there is room for.
pub proof fn law_card_fits(title: Seq<char>, rec: Option<Info>, right: int, max_lines: int)
    requires
        0 <= max_lines,
    ensures
        card_text(title, rec, right, max_lines).len() <= max_lines,
{
}

// ---- keys, filters and lines ------------------------------------------------------------------------------------------

/// "q" quits, and so does escape without a filter; with one it clears it. What is typed goes
/// to the filter, and the last of it is taken back. Keys that are not printed do nothing.
pub proof fn law_keys_of_the_menu(s: Shown, st: Stock, c: char)
    ensures
        s.after_key(st, Key::Char('q')) == (s, MenuAction::Quit),
        s.filter.len() == 0 ==> s.after_key(st, Key::Esc) == (s, MenuAction::Quit),
        s.filter.len() > 0 ==> s.after_key(st, Key::Esc).0.filter.len() == 0 && s.after_key(
            st,
            Key::Esc,
        ).1 == MenuAction::Stay,
        c != 'q' && ' ' <= c <= '~' ==> s.after_key(st, Key::Char(c)).0.filter == s.filter.push(c)
            && s.after_key(st, Key::Char(c)).1 == MenuAction::Stay,
        s.filter.len() > 0 ==> s.after_key(st, Key::Backspace).0.filter == s.filter.take(
            s.filter.len() - 1,
        ),
        s.filter.len() == 0 ==> s.after_key(st, Key::Backspace) == (s, MenuAction::Stay),
        s.after_key(st, Key::Other) == (s, MenuAction::Stay),
        c < ' ' ==> s.after_key(st, Key::Char(c)) == (s, MenuAction::Stay),
{
    if s.filter.len() > 0 {
        assert(s.filter.drop_last() =~= s.filter.take(s.filter.len() - 1));
    }
}

/// The arrows move the cursor by one line, within the lines, and close the card.
pub proof fn law_arrows_of_the_menu(s: Shown, st: Stock)
    requires
        0 <= s.sel < s.view.len(),
    ensures
        ({
            let n = s.view.len() as int;
            let down = s.after_key(st, Key::Down);
            let up = s.after_key(st, Key::Up);
            &&& s.sel + 1 < n ==> down.0 == (Shown { sel: s.sel + 1, detail: false, ..s })
            &&& s.sel + 1 == n ==> down.0 == (Shown { detail: false, ..s })
            &&& s.sel > 0 ==> up.0 == (Shown { sel: s.sel - 1, detail: false, ..s })
            &&& s.sel == 0 ==> up.0 == (Shown { detail: false, ..s })
            &&& down.1 == MenuAction::Stay && up.1 == MenuAction::Stay
        }),
{
}

/// On a game enter chooses it, and the arrow to the right shows its card, which the one to
/// the left closes. On a genre they open and close it, and enter does the one or the other.
pub proof fn law_games_and_genres(s: Shown, st: Stock, i: int, genre: Seq<char>)
    requires
        0 <= s.sel < s.view.len(),
    ensures
        s.view[s.sel] == Entry::Game(i) ==> s.after_key(st, Key::Enter) == (
            s,
            MenuAction::Chosen(i as usize),
        ) && s.after_key(st, Key::Right).0 == (Shown { detail: true, ..s }) && (s.detail
            ==> s.after_key(st, Key::Left).0 == (Shown { detail: false, ..s })) && (!s.detail
            ==> s.after_key(st, Key::Left).0.open == s.open.remove(st.gs[i].genre_name())),
        (s.view[s.sel] matches Entry::Group { genre: g, .. } && g == genre) ==> s.after_key(
            st,
            Key::Right,
        ).0.open == s.open.insert(genre) && s.after_key(st, Key::Left).0.open == s.open.remove(genre)
            && (s.open.contains(genre) ==> !s.after_key(st, Key::Enter).0.open.contains(genre)) && (
        !s.open.contains(genre) ==> s.after_key(st, Key::Enter).0.open.contains(genre)),
{
}

proof fn lemma_matching_rows(gs: Seq<Game>, idxs: Seq<int>, q: Seq<char>, n: int, row: int)
    requires
        0 <= n <= idxs.len(),
    ensures
        matching_rows(gs, idxs, q, n).contains(row) <==> exists|k: int|
            0 <= k < n && #[trigger] idxs[k] == row && (q.len() == 0 || has_part(
                lowered(gs[row].title),
                q,
            )),
    decreases n,
{
    if n > 0 {
        lemma_matching_rows(gs, idxs, q, n - 1, row);
        let init = matching_rows(gs, idxs, q, n - 1);
        let all = matching_rows(gs, idxs, q, n);
        let ok = q.len() == 0 || has_part(lowered(gs[row].title), q);
        if init.contains(row) {
            assert(all[init.index_of(row)] == row);
            let k = choose|k: int| 0 <= k < n - 1 && #[trigger] idxs[k] == row && ok;
            assert(idxs[k] == row);
        }
        if all.contains(row) && !init.contains(row) {
            let i = all.index_of(row);
            if i < init.len() {
                assert(init[i] == row);
            }
            assert(idxs[n - 1] == row);
        }
        if matches_filter(gs[idxs[n - 1]], q) {
            assert(all[all.len() - 1] == idxs[n - 1]);
        }
    }
}

/// A filter keeps the games whose title has it, in small letters or capitals; a genre without
/// one is not shown. Without a filter the games of a genre are shown where it is open.
pub proof fn law_filters_keep_what_they_name(
    gs: Seq<Game>,
    s: Section,
    open: Set<Seq<char>>,
    q: Seq<char>,
    row: int,
)
    ensures
        ({
            let e = section_entries(gs, s, open, q);
            let kept = exists|k: int|
                0 <= k < s.1.len() && #[trigger] s.1[k] == row && (q.len() == 0 || has_part(
                    lowered(gs[row].title),
                    q,
                ));
            &&& e.contains(Entry::Game(row)) <==> kept && (q.len() > 0 || open.contains(s.0))
            &&& kept ==> e.len() > 0 && (e[0] matches Entry::Group { genre, count, expanded } && genre
                == s.0 && count >= 1 && expanded == (q.len() > 0 || open.contains(s.0)))
        }),
{
    let m = matching_rows(gs, s.1, q, s.1.len() as int);
    lemma_matching_rows(gs, s.1, q, s.1.len() as int, row);
    let e = section_entries(gs, s, open, q);
    let games = m.map_values(|i: int| Entry::Game(i));
    if m.contains(row) {
        let k = m.index_of(row);
        assert(games[k] == Entry::Game(row));
        if q.len() > 0 || open.contains(s.0) {
            assert(e[k + 1] == Entry::Game(row));
        } else {
            assert forall|i: int| 0 <= i < e.len() implies e[i] != Entry::Game(row) by {
                assert(i == 0);
            }
        }
    }
    if e.contains(Entry::Game(row)) {
        let i = e.index_of(Entry::Game(row));
        assert(i > 0);
        assert(games[i - 1] == Entry::Game(row));
        assert(m[i - 1] == row);
        assert(m.contains(row));
    }
}

/// The lines of the sections follow each other in their order.
pub proof fn law_sections_follow_in_the_menu(
    gs: Seq<Game>,
    ss: Seq<Section>,
    open: Set<Seq<char>>,
    q: Seq<char>,
    n: int,
)
    requires
        0 <= n < ss.len(),
    ensures
        menu_entries(gs, ss, open, q, n + 1) == menu_entries(gs, ss, open, q, n) + section_entries(
            gs,
            ss[n],
            open,
            q,
        ),
        menu_entries(gs, ss, open, q, 0).len() == 0,
{
}

/// The lines are on the screen one below the other from the second row on, and the card
/// stands behind the line of its game and pushes down what follows.
pub proof fn law_the_card_pushes_lines_down(top: int, sel: int, card_h: int, line: int)
    requires
        top <= line,
        top <= sel,
        0 <= card_h,
    ensures
        line_y(top, sel, card_h, top) == 1,
        line != sel ==> line_y(top, sel, card_h, line + 1) == line_y(top, sel, card_h, line) + 1,
        line == sel ==> line_y(top, sel, card_h, line + 1) == line_y(top, sel, card_h, line) + 1
            + card_h,
{
}

/// The card takes what the screen leaves beside six lines, but five at least and eleven at
/// most, and none where it is not open on a game.
pub proof fn law_the_height_of_the_card(s: Shown, lines: u16)
    ensures
        !s.detail ==> card_height(s, lines) == 0,
        s.detail && (s.current() matches Some(Entry::Game(_))) ==> 5 <= card_height(s, lines) <= 11,
        s.detail && (s.current() matches Some(Entry::Game(_))) && 11 <= lines <= 17 ==> card_height(
            s,
            lines,
        ) == lines - 6,
        lines > 3 + card_height(s, lines) ==> line_budget(s, lines) + card_height(s, lines) + 2 == lines,
{
}

/// How many games are on disk.
pub proof fn law_local_games_are_counted(gs: Seq<Game>)
    ensures
        count_local(gs) == gs.filter(|g: Game| g.status == "local"@).len(),
    decreases gs.len(),
{
    reveal(Seq::filter);
    if gs.len() > 0 {
        law_local_games_are_counted(gs.drop_last());
    }
}

/// A game's line shows whether it is on disk, and what enter does with it: play it, or get
/// it first.
pub proof fn law_lines_of_games(g: Game, width: u16, caret_down: bool)
    ensures
        g.status == "local"@ ==> game_text(g, width, caret_down).button == "\u{21b5} Play"@,
        g.status != "local"@ ==> game_text(g, width, caret_down).button == "\u{21b5} Get "@,
        game_text(g, width, caret_down).label.len() <= max_int(1, width as int),
        width >= 16 && g.title.len() + 16 <= width ==> game_text(g, width, caret_down).label == g.title,
{
    reveal_strlit("    ");
    reveal_strlit("\u{25be}");
    reveal_strlit(" ");
    reveal_strlit("\u{25cf}");
    reveal_strlit("\u{2b07}");
}

/// The card begins with the title, and the year where it is known; a game without details
/// says so.
pub proof fn law_the_head_of_the_card(title: Seq<char>, r: Info, right: int, max_lines: int)
    requires
        max_lines >= 2,
    ensures
        ({
            let c = card_text(title, Some(r), right, max_lines);
            &&& c.len() >= 1
            &&& c[0].1
            &&& r.year is None ==> c[0].0 == title
            &&& r.year matches Some(y) ==> c[0].0 == title + "  ("@ + y + ")"@
        }),
        card_text(title, None, right, max_lines) == seq![
            (title, true),
            ("(no GameBase64 entry)"@, false),
        ],
{
    let head = title + (match r.year {
        Some(y) => "  ("@ + y + ")"@,
        None => Seq::empty(),
    });
    if r.year is None {
        assert(head =~= title);
    } else {
        assert(head =~= title + "  ("@ + r.year->0 + ")"@);
    }
    let ls = seq![(head, true)] + facts(r, right);
    assert(ls[0] == (head, true));
    let w = with_note(ls, r.note, right, max_lines);
    assert(w.len() >= 1 && w[0] == ls[0]);
}

/// A value on the card is that of the row with its label.
pub proof fn law_values_on_the_card(rows: Entries, label: Seq<char>, v: Seq<char>)
    ensures
        value_of(rows.push((label, v)), label, rows.len() as int + 1) == Some(v),
        value_of(Seq::empty(), label, 0) is None,
{
}

/// Two facts stand on one line with a dot between them; one alone stands without.
pub proof fn law_facts_share_a_line(a: Seq<char>, b: Seq<char>)
    ensures
        dotted(Some(a), Some(b)) == Some(a + " \u{b7} "@ + b),
        dotted(Some(a), None) == Some(a),
        dotted(None, Some(b)) == Some(b),
        dotted(None, None) is None,
{
}

/// A click chooses the line of the menu that its row shows, and a click on the card the line
/// that the card is of; elsewhere it does nothing.
pub proof fn law_clicks_in_the_menu(
    rows: Seq<(u16, usize)>,
    card: Option<(usize, u16, u16)>,
    sel: int,
    y: u16,
    i: int,
)
    requires
        forall|a: int, b: int| 0 <= a < b < rows.len() ==> (#[trigger] rows[a]).0 != (#[trigger] rows[b]).0,
    ensures
        0 <= i < rows.len() && rows[i].0 == y ==> line_at(rows, card, sel, y, rows.len() as int) == Some(
            rows[i].1 as int,
        ),
        (forall|k: int| 0 <= k < rows.len() ==> (#[trigger] rows[k]).0 != y) ==> line_at(
            rows,
            card,
            sel,
            y,
            rows.len() as int,
        ) == (if card matches Some((_, from, h)) && from <= y && y < from + h {
            Some(sel)
        } else {
            None
        }),
{
    lemma_line_at(rows, card, sel, y, rows.len() as int, i);
}

proof fn lemma_line_at(
    rows: Seq<(u16, usize)>,
    card: Option<(usize, u16, u16)>,
    sel: int,
    y: u16,
    n: int,
    i: int,
)
    requires
        0 <= n <= rows.len(),
        forall|a: int, b: int| 0 <= a < b < rows.len() ==> (#[trigger] rows[a]).0 != (#[trigger] rows[b]).0,
    ensures
        0 <= i < n && rows[i].0 == y ==> line_at(rows, card, sel, y, n) == Some(rows[i].1 as int),
        (forall|k: int| 0 <= k < n ==> (#[trigger] rows[k]).0 != y) ==> line_at(rows, card, sel, y, n)
            == (if card matches Some((_, from, h)) && from <= y && y < from + h {
            Some(sel)
        } else {
            None
        }),
    decreases n,
{
    if n > 0 {
        lemma_line_at(rows, card, sel, y, n - 1, i);
        if 0 <= i < n - 1 && rows[i].0 == y {
            assert(rows[i].0 != rows[n - 1].0);
        }
    }
}

/// Only the head of the card is bold; the facts follow it, the genre first.
pub proof fn law_facts_on_the_card(r: Info, right: int, g: Seq<char>, i: int)
    ensures
        value(r, "Genre"@) == Some(g) ==> facts(r, right).len() > 0 && facts(r, right)[0] == (
            cut(g, right),
            false,
        ),
        0 <= i < facts(r, right).len() ==> !facts(r, right)[i].1,
        r.rows.len() == 0 ==> facts(r, right).len() == 0,
{
}

/// The wheel moves the cursor as the arrows do.
pub proof fn law_the_wheel_moves_the_cursor(
    s: Shown,
    st: Stock,
    rows: Seq<(u16, usize)>,
    card: Option<(usize, u16, u16)>,
)
    ensures
        s.after_mouse(Mouse::ScrollDown, rows, card) == s.after_key(st, Key::Down).0,
        s.after_mouse(Mouse::ScrollUp, rows, card) == s.after_key(st, Key::Up).0,
        s.after_mouse(Mouse::Other, rows, card) == s,
{
}

/// The cursor goes to the first line of a genre that was opened or closed, where it has one.
pub proof fn law_the_cursor_follows_the_genre(v: Seq<Entry>, genre: Seq<char>, from: int, other: int)
    requires
        0 <= from <= v.len(),
    ensures
        ({
            let at = genre_line(v, genre, from, other);
            let is_line = |k: int| v[k] matches Entry::Group { genre: g, .. } && g == genre;
            ||| from <= at < v.len() && is_line(at) && forall|k: int| from <= k < at ==> !#[trigger] is_line(k)
            ||| at == other && forall|k: int| from <= k < v.len() ==> !#[trigger] is_line(k)
        }),
    decreases v.len() - from,
{
    if from < v.len() {
        law_the_cursor_follows_the_genre(v, genre, from + 1, other);
    }
}

} // verus!
