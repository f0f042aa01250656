//! The jukebox: the list of the tunes, what is playing, and the radio. Fetching a tune
//! and making it sound is done elsewhere; the jukebox says which, and is told how it
//! went.

use crate::csdb::{lemma_sections_below, rating_text, write_rating};
use crate::grid::{
    hit, hit_from, lemma_first_hit, lemma_hit_bound, max_int, min_int, Key, Mouse, Rect,
};
use crate::grouping::{group_view, groups_view};
use crate::info::{pad, padded, repeat, repeated};
use crate::layout::{cut, to_uppercase, trunc, uppered};
use crate::sections::Section;
use crate::single::INFINITE;
use crate::text::{append, chars_of, decimal, decimal_text, two_digit_text, two_digits};
use crate::tunes::{
    group_by_party, parties_of, ranks_of, shuffled, tune_sections, tunes_view, MIN_PER_PARTY,
    Piece, Rng, TOP_PER_PARTY, Tune,
};
use vstd::prelude::*;

verus! {

/// How long the radio stays with a tune, in seconds.
pub const RADIO_SECS: u64 = 90;

/// How many tunes the radio tries before it gives up.
pub const RADIO_TRIES: u8 = 12;

// ---- visuals -------------------------------------------------------------------------------------

/// What the player shows.
#[derive(Clone, Copy, PartialEq, Eq, Structural, Debug)]
pub enum VisMode {
    Scope,
    Fireball,
    Cubes,
}

/// The radio goes on to another tune.
pub open spec fn radio_moves_on(frame: Option<u64>) -> bool {
    match frame {
        Some(f) => f / 50 >= RADIO_SECS,
        None => true,
    }
}

/// What the player shows next.
pub open spec fn mode_after(m: VisMode) -> VisMode {
    match m {
        VisMode::Scope => VisMode::Fireball,
        VisMode::Fireball => VisMode::Cubes,
        VisMode::Cubes => VisMode::Scope,
    }
}

/// What the player shows for a number.
pub open spec fn mode_of(n: int) -> VisMode {
    if n == 0 {
        VisMode::Scope
    } else if n == 1 {
        VisMode::Fireball
    } else {
        VisMode::Cubes
    }
}

pub open spec fn mode_name(m: VisMode) -> Seq<char> {
    match m {
        VisMode::Scope => "scope"@,
        VisMode::Fireball => "fireball"@,
        VisMode::Cubes => "cubes"@,
    }
}

impl VisMode {
    pub fn next(self) -> (r: VisMode)
        ensures
            r == mode_after(self),
    {
        match self {
            VisMode::Scope => VisMode::Fireball,
            VisMode::Fireball => VisMode::Cubes,
            VisMode::Cubes => VisMode::Scope,
        }
    }

    pub fn label(self) -> (r: &'static str)
        ensures
            r@ == mode_name(self),
    {
        match self {
            VisMode::Scope => "scope",
            VisMode::Fireball => "fireball",
            VisMode::Cubes => "cubes",
        }
    }

    /// One of the visuals, by chance.
    pub fn random(rng: &mut Rng) -> (r: VisMode)
        ensures
            r == mode_of((shuffled(old(rng).0) % 3) as int),
            final(rng).0 == shuffled(old(rng).0),
    {
        let n: usize = rng.below(3);
        if n == 0 {
            VisMode::Scope
        } else if n == 1 {
            VisMode::Fireball
        } else {
            VisMode::Cubes
        }
    }
}

// ---- the list ---------------------------------------------------------------------------------------

/// A row of the list.
#[derive(Clone, Copy, PartialEq, Eq, Structural, Debug)]
pub enum ListRow {
    /// A section's name.
    Header(usize),
    /// A section and the place of a tune in it.
    Tune(usize, usize),
}

/// The rows of the first `n` sections: each one's name and then its tunes.
pub open spec fn rows_upto(ss: Seq<Section>, n: int) -> Seq<ListRow>
    decreases n,
{
    if n <= 0 {
        Seq::empty()
    } else {
        rows_upto(ss, n - 1).push(ListRow::Header((n - 1) as usize)) + Seq::new(
            ss[n - 1].1.len(),
            |j: int| ListRow::Tune((n - 1) as usize, j as usize),
        )
    }
}

/// The tune in a row.
pub open spec fn tune_in(ss: Seq<Section>, rows: Seq<ListRow>, row: int) -> Option<int> {
    if 0 <= row < rows.len() {
        match rows[row] {
            ListRow::Tune(g, j) => Some(ss[g as int].1[j as int]),
            ListRow::Header(_) => None,
        }
    } else {
        None
    }
}

/// The first row of a tune, from `from` on.
pub open spec fn row_of_tune(ss: Seq<Section>, rows: Seq<ListRow>, idx: int, from: int) -> Option<int>
    decreases rows.len() - from,
{
    if from < 0 || from >= rows.len() {
        None
    } else if tune_in(ss, rows, from) == Some(idx) {
        Some(from)
    } else {
        row_of_tune(ss, rows, idx, from + 1)
    }
}

/// The first row with a tune, from `from` on.
pub open spec fn next_tune_row(ss: Seq<Section>, rows: Seq<ListRow>, from: int) -> Option<int>
    decreases rows.len() - from,
{
    if from < 0 || from >= rows.len() {
        None
    } else if tune_in(ss, rows, from) is Some {
        Some(from)
    } else {
        next_tune_row(ss, rows, from + 1)
    }
}

/// Every row is of a section, and every tune in it of the list.
pub open spec fn rows_fit(ss: Seq<Section>, rows: Seq<ListRow>, n: int) -> bool {
    forall|r: int|
        0 <= r < rows.len() ==> match #[trigger] rows[r] {
            ListRow::Header(g) => g < ss.len(),
            ListRow::Tune(g, j) => g < ss.len() && j < ss[g as int].1.len() && 0
                <= ss[g as int].1[j as int] < n,
        }
}

proof fn lemma_rows_fit(ss: Seq<Section>, k: int, n: int)
    requires
        k <= ss.len(),
        ss.len() <= usize::MAX,
        forall|s: int| 0 <= s < ss.len() ==> (#[trigger] ss[s]).1.len() <= usize::MAX,
        forall|s: int, i: int|
            0 <= s < ss.len() && 0 <= i < ss[s].1.len() ==> 0 <= #[trigger] ss[s].1[i] < n,
    ensures
        rows_fit(ss, rows_upto(ss, k), n),
    decreases k,
{
    if k > 0 {
        lemma_rows_fit(ss, k - 1, n);
        let was = rows_upto(ss, k - 1);
        let now = rows_upto(ss, k);
        assert forall|r: int| 0 <= r < now.len() implies match #[trigger] now[r] {
            ListRow::Header(g) => g < ss.len(),
            ListRow::Tune(g, j) => g < ss.len() && j < ss[g as int].1.len() && 0
                <= ss[g as int].1[j as int] < n,
        } by {
            if r < was.len() {
                assert(now[r] == was[r]);
            } else if r == was.len() {
                assert(now[r] == ListRow::Header((k - 1) as usize));
            } else {
                let j = r - was.len() - 1;
                assert(ss[k - 1].1.len() <= usize::MAX);
                assert(now[r] == ListRow::Tune((k - 1) as usize, j as usize));
                assert(0 <= ss[k - 1].1[j] < n);
            }
        }
    }
}

/// What an input comes to.
#[derive(Clone, Copy, PartialEq, Eq, Structural, Debug)]
pub enum Command {
    Quit,
    /// Stop playing and show the list.
    Back,
    /// Play this tune, and tell how it went by `finish`.
    Play(usize),
    /// Play this tune for the radio, and tell how it went by `radio_result`.
    Radio(usize),
    /// Pause, or go on.
    Pause,
    Stay,
}

/// The jukebox.
pub struct Jukebox {
    pub all: Vec<Tune>,
    pub groups: Vec<(String, Vec<usize>)>,
    pub rows: Vec<ListRow>,
    pub sel: usize,
    pub top: usize,
    pub rects: Vec<(Rect, usize)>,
    /// The tune that is playing.
    pub now: Option<usize>,
    pub mode: VisMode,
    pub status: String,
    /// Whether tunes are picked by chance, one after the other.
    pub radio: bool,
    /// How many more tunes the radio may try.
    pub tries: u8,
    pub rng: Rng,
}

impl Jukebox {
    pub open spec fn sections(self) -> Seq<Section> {
        groups_view(self.groups@)
    }

    /// The rows are those of the tunes' sections, and the cursor, the clickable rows and
    /// the playing tune are among what there is.
    pub open spec fn wf(self) -> bool {
        &&& self.sections() == tune_sections(tunes_view(self.all@))
        &&& self.rows@ == rows_upto(self.sections(), self.sections().len() as int)
        &&& rows_fit(self.sections(), self.rows@, self.all@.len() as int)
        &&& self.sel < self.rows@.len() || self.sel == 0
        &&& self.now matches Some(n) ==> n < self.all@.len()
        &&& forall|k: int| 0 <= k < self.rects@.len() ==> (#[trigger] self.rects@[k]).1 < self.rows@.len()
    }

    /// The jukebox with these tunes.
    pub fn new(all: Vec<Tune>, rng: Rng) -> (r: Jukebox)
        ensures
            r.wf(),
            r.all == all,
            r.rng == rng,
            r.sel == 0,
            r.top == 0,
            r.now is None,
            r.mode == VisMode::Scope,
            r.status@ == Seq::<char>::empty(),
            !r.radio,
            r.rects@.len() == 0,
    {
        let groups = group_by_party(all.as_slice());
        let ghost ss = groups_view(groups@);
        let ghost ts = tunes_view(all@);
        proof {
            assert(ss.len() == groups@.len());
            assert forall|s: int| 0 <= s < ss.len() implies (#[trigger] ss[s]).1.len()
                <= usize::MAX by {
                assert(ss[s] == group_view(groups@[s]));
                assert(ss[s].1.len() == groups@[s].1@.len());
            }
            assert forall|s: int, i: int|
                0 <= s < ss.len() && 0 <= i < ss[s].1.len() implies 0 <= #[trigger] ss[s].1[i]
                < all@.len() by {
                lemma_sections_below(
                    parties_of(ts),
                    ranks_of(ts),
                    MIN_PER_PARTY as int,
                    TOP_PER_PARTY as int,
                    true,
                    s,
                    i,
                );
            }
        }
        let mut rows: Vec<ListRow> = Vec::new();
        let mut g: usize = 0;
        assert(rows@ =~= rows_upto(ss, 0));
        while g < groups.len()
            invariant
                ss == groups_view(groups@),
                ss.len() == groups@.len(),
                g <= groups@.len(),
                rows@ == rows_upto(ss, g as int),
            decreases groups@.len() - g,
        {
            let ghost was = rows@;
            rows.push(ListRow::Header(g));
            let n: usize = groups[g].1.len();
            proof {
                assert(ss[g as int] == group_view(groups@[g as int]));
                assert(ss[g as int].1.len() == n);
            }
            let mut j: usize = 0;
            while j < n
                invariant
                    j <= n,
                    rows@ =~= was.push(ListRow::Header(g)) + Seq::new(
                        j as nat,
                        |k: int| ListRow::Tune(g, k as usize),
                    ),
                decreases n - j,
            {
                rows.push(ListRow::Tune(g, j));
                j += 1;
            }
            assert(rows@ =~= rows_upto(ss, g + 1));
            g += 1;
        }
        proof {
            lemma_rows_fit(ss, ss.len() as int, all@.len() as int);
        }
        let status = String::new();
        assert(status@ =~= Seq::empty());
        Jukebox {
            all,
            groups,
            rows,
            sel: 0,
            top: 0,
            rects: Vec::new(),
            now: None,
            mode: VisMode::Scope,
            status,
            radio: false,
            tries: 0,
            rng,
        }
    }

    /// The tune in a row.
    pub fn tune_at(&self, row: usize) -> (r: Option<usize>)
        requires
            self.wf(),
        ensures
            match r {
                Some(i) => tune_in(self.sections(), self.rows@, row as int) == Some(i as int) && i
                    < self.all@.len(),
                None => tune_in(self.sections(), self.rows@, row as int) is None,
            },
    {
        if row >= self.rows.len() {
            return None;
        }
        match self.rows[row] {
            ListRow::Tune(g, j) => {
                proof {
                    let ss = self.sections();
                    assert(rows_fit(ss, self.rows@, self.all@.len() as int));
                    assert(self.rows@[row as int] == ListRow::Tune(g, j));
                    assert(ss.len() == self.groups@.len());
                    assert(ss[g as int] == group_view(self.groups@[g as int]));
                    assert(ss[g as int].1.len() == self.groups@[g as int].1@.len());
                }
                Some(self.groups[g].1[j])
            },
            ListRow::Header(_) => None,
        }
    }

    /// What is shown while a tune is fetched.
    pub fn loading_text(&self, idx: usize) -> (r: String)
        requires
            idx < self.all@.len(),
        ensures
            r@ == "Loading "@ + self.all@[idx as int].name@ + " ..."@,
    {
        let a = append("Loading ", self.all[idx].name.as_str());
        append(a.as_str(), " ...")
    }

    /// Takes note of how it went to play a tune: it is playing, or nothing is and it is
    /// said why.
    pub fn finish(&mut self, idx: usize, outcome: &Result<(), String>)
        requires
            old(self).wf(),
            idx < old(self).all@.len(),
        ensures
            final(self).wf(),
            *final(self) == (Jukebox {
                now: final(self).now,
                status: final(self).status,
                ..*old(self)
            }),
            final(self).now == match outcome {
                Ok(_) => Some(idx),
                Err(_) => None,
            },
            final(self).status@ == match outcome {
                Ok(_) => Seq::empty(),
                Err(e) => "Could not play "@ + old(self).all@[idx as int].name@ + ": "@ + e@,
            },
    {
        match outcome {
            Ok(_) => {
                self.now = Some(idx);
                self.status = String::new();
                assert(self.status@ =~= Seq::empty());
            },
            Err(e) => {
                self.now = None;
                let a = append("Could not play ", self.all[idx].name.as_str());
                let b = append(a.as_str(), ": ");
                self.status = append(b.as_str(), e.as_str());
            },
        }
    }

    fn find_row(&self, idx: usize) -> (r: Option<usize>)
        requires
            self.wf(),
        ensures
            match r {
                Some(p) => row_of_tune(self.sections(), self.rows@, idx as int, 0) == Some(p as int)
                    && p < self.rows@.len(),
                None => row_of_tune(self.sections(), self.rows@, idx as int, 0) is None,
            },
    {
        let mut p: usize = 0;
        while p < self.rows.len()
            invariant
                self.wf(),
                p <= self.rows@.len(),
                row_of_tune(self.sections(), self.rows@, idx as int, 0) == row_of_tune(
                    self.sections(),
                    self.rows@,
                    idx as int,
                    p as int,
                ),
            decreases self.rows@.len() - p,
        {
            match self.tune_at(p) {
                Some(i) => if i == idx {
                    return Some(p);
                },
                None => {},
            }
            p += 1;
        }
        None
    }

    /// Where the cursor is after the next tune was asked for, and that tune: the first
    /// row with a tune behind the one that is playing.
    pub open spec fn next_play(self) -> Option<(int, int)> {
        match self.now {
            Some(cur) => match row_of_tune(self.sections(), self.rows@, cur as int, 0) {
                Some(p) => match next_tune_row(self.sections(), self.rows@, p + 1) {
                    Some(r) => match tune_in(self.sections(), self.rows@, r) {
                        Some(i) => Some((r, i)),
                        None => None,
                    },
                    None => None,
                },
                None => None,
            },
            None => None,
        }
    }

    /// The next tune of the list, if there is one behind the one that is playing. The
    /// cursor moves to it.
    pub fn play_next(&mut self) -> (r: Option<usize>)
        requires
            old(self).wf(),
        ensures
            final(self).wf(),
            *final(self) == (Jukebox { sel: final(self).sel, ..*old(self) }),
            match r {
                Some(i) => old(self).next_play() == Some((final(self).sel as int, i as int)) && i
                    < old(self).all@.len(),
                None => old(self).next_play() is None && final(self).sel == old(self).sel,
            },
    {
        let cur: usize = match self.now {
            Some(cur) => cur,
            None => {
                return None;
            },
        };
        match self.find_row(cur) {
            Some(p) => {
                let ghost ss = self.sections();
                let n: usize = self.rows.len();
                let mut r: usize = p + 1;
                while r < n
                    invariant
                        *self == *old(self),
                        self.wf(),
                        n == self.rows@.len(),
                        ss == self.sections(),
                        self.now == Some(cur),
                        row_of_tune(ss, self.rows@, cur as int, 0) == Some(p as int),
                        r <= self.rows@.len(),
                        next_tune_row(ss, self.rows@, p + 1) == next_tune_row(
                            ss,
                            self.rows@,
                            r as int,
                        ),
                    decreases self.rows@.len() - r,
                {
                    match self.tune_at(r) {
                        Some(i) => {
                            self.sel = r;
                            return Some(i);
                        },
                        None => {},
                    }
                    r += 1;
                }
                None
            },
            None => None,
        }
    }

    /// Moves the cursor to a tune, where the list shows it.
    pub fn select_tune(&mut self, idx: usize)
        requires
            old(self).wf(),
        ensures
            final(self).wf(),
            *final(self) == (Jukebox { sel: final(self).sel, ..*old(self) }),
            final(self).sel == match row_of_tune(old(self).sections(), old(self).rows@, idx as int, 0) {
                Some(p) => p,
                None => old(self).sel as int,
            },
    {
        match self.find_row(idx) {
            Some(p) => {
                self.sel = p;
            },
            None => {},
        }
    }

    /// Starts the radio, or lets it go on: another visual, and a tune to try.
    pub fn radio_next(&mut self) -> (r: usize)
        requires
            old(self).wf(),
            old(self).all@.len() > 0,
        ensures
            final(self).wf(),
            *final(self) == (Jukebox {
                mode: final(self).mode,
                tries: (RADIO_TRIES - 1) as u8,
                rng: final(self).rng,
                ..*old(self)
            }),
            final(self).mode == mode_of((shuffled(old(self).rng.0) % 3) as int),
            final(self).rng.0 == shuffled(shuffled(old(self).rng.0)),
            r == final(self).rng.0 % (old(self).all@.len() as u64),
            r < old(self).all@.len(),
    {
        self.mode = VisMode::random(&mut self.rng);
        self.tries = RADIO_TRIES - 1;
        let n: usize = self.all.len();
        self.rng.below(n)
    }

    /// Takes note of how it went to play a tune for the radio. Where it did not, another
    /// tune is tried, up to a limit; then the radio gives up.
    pub fn radio_result(&mut self, idx: usize, outcome: &Result<(), String>) -> (r: Option<usize>)
        requires
            old(self).wf(),
            idx < old(self).all@.len(),
        ensures
            final(self).wf(),
            *final(self) == (Jukebox {
                sel: final(self).sel,
                now: final(self).now,
                status: final(self).status,
                radio: final(self).radio,
                tries: final(self).tries,
                rng: final(self).rng,
                ..*old(self)
            }),
            match outcome {
                Ok(_) => r is None && final(self).now == Some(idx) && final(self).status@.len() == 0
                    && final(self).radio == old(self).radio && final(self).tries == old(self).tries
                    && final(self).rng == old(self).rng && final(self).sel == match row_of_tune(
                    old(self).sections(),
                    old(self).rows@,
                    idx as int,
                    0,
                ) {
                    Some(p) => p,
                    None => old(self).sel as int,
                },
                Err(e) => final(self).now is None && final(self).sel == old(self).sel && if old(
                    self,
                ).tries > 0 {
                    &&& r == Some((final(self).rng.0 % (old(self).all@.len() as u64)) as usize)
                    &&& final(self).rng.0 == shuffled(old(self).rng.0)
                    &&& final(self).tries == old(self).tries - 1
                    &&& final(self).radio == old(self).radio
                    &&& final(self).status@ == "Could not play "@ + old(self).all@[idx as int].name@
                        + ": "@ + e@
                } else {
                    &&& r is None
                    &&& final(self).rng == old(self).rng
                    &&& final(self).tries == old(self).tries
                    &&& !final(self).radio
                    &&& final(self).status@ == "Radio: could not find a playable tune"@
                },
            },
            r matches Some(i) ==> i < old(self).all@.len(),
    {
        self.finish(idx, outcome);
        if outcome.is_ok() {
            self.select_tune(idx);
            return None;
        }
        if self.tries > 0 {
            self.tries = self.tries - 1;
            let n: usize = self.all.len();
            Some(self.rng.below(n))
        } else {
            self.radio = false;
            self.status = "Radio: could not find a playable tune".to_string();
            None
        }
    }

    /// Whether the radio should go on to another tune: the one that is playing has gone
    /// on for long enough, or none is.
    pub fn radio_should_advance(frame: Option<u64>) -> (r: bool)
        ensures
            r == match frame {
                Some(f) => f / 50 >= RADIO_SECS,
                None => true,
            },
            r == radio_moves_on(frame),
    {
        match frame {
            Some(f) => f / 50 >= RADIO_SECS,
            None => true,
        }
    }

    /// Stops: nothing is playing, and the radio is off.
    pub fn back(&mut self)
        requires
            old(self).wf(),
        ensures
            final(self).wf(),
            *final(self) == (Jukebox { now: None, radio: false, ..*old(self) }),
    {
        self.now = None;
        self.radio = false;
    }
}

// ---- input ------------------------------------------------------------------------------------------

impl Jukebox {
    /// The cursor one row further, and one row back.
    pub open spec fn row_below(self) -> int {
        min_int(self.sel + 1, max_int(0, self.rows@.len() - 1))
    }

    pub open spec fn row_above(self) -> int {
        max_int(0, self.sel - 1)
    }

    fn go_down(&mut self)
        requires
            old(self).wf(),
        ensures
            final(self).wf(),
            *final(self) == (Jukebox { sel: old(self).row_below() as usize, ..*old(self) }),
    {
        let n: usize = self.rows.len();
        if n > 0 && self.sel < n - 1 {
            self.sel = self.sel + 1;
        }
    }

    fn go_up(&mut self)
        requires
            old(self).wf(),
        ensures
            final(self).wf(),
            *final(self) == (Jukebox { sel: old(self).row_above() as usize, ..*old(self) }),
    {
        if self.sel > 0 {
            self.sel = self.sel - 1;
        }
    }

    /// The radio is on, and picked a tune to try.
    pub open spec fn radio_begun(self, was: Jukebox, c: Command) -> bool {
        &&& self == (Jukebox {
            radio: true,
            mode: mode_of((shuffled(was.rng.0) % 3) as int),
            tries: (RADIO_TRIES - 1) as u8,
            rng: self.rng,
            ..was
        })
        &&& self.rng.0 == shuffled(shuffled(was.rng.0))
        &&& c == Command::Radio((self.rng.0 % (was.all@.len() as u64)) as usize)
    }

    /// The jukebox and the outcome when the radio is started.
    pub open spec fn with_radio(self) -> (Jukebox, Command) {
        let rng = Rng(shuffled(shuffled(self.rng.0)));
        (
            Jukebox {
                radio: true,
                mode: mode_of((shuffled(self.rng.0) % 3) as int),
                tries: (RADIO_TRIES - 1) as u8,
                rng,
                ..self
            },
            Command::Radio((rng.0 % (self.all@.len() as u64)) as usize),
        )
    }

    /// The jukebox and the outcome of a key on the list.
    pub open spec fn after_browse_key(self, key: Key) -> (Jukebox, Command) {
        match key {
            Key::Char(c) => if c == 'q' {
                (self, Command::Quit)
            } else if c == 'r' {
                self.with_radio()
            } else {
                (self, Command::Stay)
            },
            Key::Esc => (self, Command::Quit),
            Key::Down | Key::Tab => (
                Jukebox { sel: self.row_below() as usize, ..self },
                Command::Stay,
            ),
            Key::Up => (Jukebox { sel: self.row_above() as usize, ..self }, Command::Stay),
            Key::Enter => (self, self.play_row(self.sel as int)),
            _ => (self, Command::Stay),
        }
    }

    /// The jukebox and the outcome of a key on the player.
    pub open spec fn after_player_key(self, key: Key) -> (Jukebox, Command) {
        match key {
            Key::Char(c) => if c == 'q' {
                (self, Command::Quit)
            } else if c == ' ' {
                (self, Command::Pause)
            } else if c == 'n' {
                if self.radio {
                    self.with_radio()
                } else {
                    match self.next_play() {
                        Some((row, i)) => (
                            Jukebox { sel: row as usize, ..self },
                            Command::Play(i as usize),
                        ),
                        None => (self, Command::Stay),
                    }
                }
            } else if c == 'r' {
                if self.radio {
                    (Jukebox { radio: false, ..self }, Command::Stay)
                } else {
                    self.with_radio()
                }
            } else if c == 'v' {
                (Jukebox { mode: mode_after(self.mode), ..self }, Command::Stay)
            } else {
                (self, Command::Stay)
            },
            Key::Esc | Key::Left | Key::Backspace => (self, Command::Back),
            Key::Tab | Key::Right => (
                Jukebox { mode: mode_after(self.mode), ..self },
                Command::Stay,
            ),
            _ => (self, Command::Stay),
        }
    }

    /// The jukebox and the outcome of the mouse on the list.
    pub open spec fn after_browse_mouse(self, m: Mouse) -> (Jukebox, Command) {
        match m {
            Mouse::ScrollUp => (Jukebox { sel: self.row_above() as usize, ..self }, Command::Stay),
            Mouse::ScrollDown => (
                Jukebox { sel: self.row_below() as usize, ..self },
                Command::Stay,
            ),
            Mouse::Click { column, row } => match hit_from(self.rects@, column, row, 0) {
                Some(ri) => (Jukebox { sel: ri, ..self }, self.play_row(ri as int)),
                None => (self, Command::Stay),
            },
            Mouse::Other => (self, Command::Stay),
        }
    }

    /// What playing the tune in a row is.
    pub open spec fn play_row(self, row: int) -> Command {
        match tune_in(self.sections(), self.rows@, row) {
            Some(i) => Command::Play(i as usize),
            None => Command::Stay,
        }
    }

    fn play_at(&self, row: usize) -> (r: Command)
        requires
            self.wf(),
        ensures
            r == self.play_row(row as int),
            r matches Command::Play(i) ==> i < self.all@.len(),
    {
        match self.tune_at(row) {
            Some(i) => Command::Play(i),
            None => Command::Stay,
        }
    }

    fn begin_radio(&mut self) -> (r: Command)
        requires
            old(self).wf(),
            old(self).all@.len() > 0,
        ensures
            final(self).wf(),
            final(self).radio_begun(*old(self), r),
            r matches Command::Radio(i) ==> i < old(self).all@.len(),
    {
        self.radio = true;
        Command::Radio(self.radio_next())
    }

    /// Handles a key on the list.
    pub fn browse_key(&mut self, key: Key) -> (r: Command)
        requires
            old(self).wf(),
            old(self).all@.len() > 0,
        ensures
            final(self).wf(),
            (*final(self), r) == old(self).after_browse_key(key),
            match key {
                Key::Char('q') | Key::Esc => r == Command::Quit && *final(self) == *old(self),
                Key::Down | Key::Tab => r == Command::Stay && *final(self) == (Jukebox {
                    sel: old(self).row_below() as usize,
                    ..*old(self)
                }),
                Key::Up => r == Command::Stay && *final(self) == (Jukebox {
                    sel: old(self).row_above() as usize,
                    ..*old(self)
                }),
                Key::Enter => r == old(self).play_row(old(self).sel as int) && *final(self) == *old(
                    self,
                ),
                Key::Char('r') => final(self).radio_begun(*old(self), r),
                _ => r == Command::Stay && *final(self) == *old(self),
            },
            r matches Command::Play(i) ==> i < old(self).all@.len(),
            r matches Command::Radio(i) ==> i < old(self).all@.len(),
    {
        match key {
            Key::Char('q') | Key::Esc => Command::Quit,
            Key::Down | Key::Tab => {
                self.go_down();
                Command::Stay
            },
            Key::Up => {
                self.go_up();
                Command::Stay
            },
            Key::Enter => self.play_at(self.sel),
            Key::Char('r') => self.begin_radio(),
            _ => Command::Stay,
        }
    }

    /// Handles a key on the player.
    pub fn player_key(&mut self, key: Key) -> (r: Command)
        requires
            old(self).wf(),
            old(self).all@.len() > 0,
        ensures
            final(self).wf(),
            (*final(self), r) == old(self).after_player_key(key),
            match key {
                Key::Char('q') => r == Command::Quit && *final(self) == *old(self),
                Key::Esc | Key::Left | Key::Backspace => r == Command::Back && *final(self) == *old(
                    self,
                ),
                Key::Char(' ') => r == Command::Pause && *final(self) == *old(self),
                Key::Char('n') => if old(self).radio {
                    final(self).radio_begun(*old(self), r)
                } else {
                    match old(self).next_play() {
                        Some((row, i)) => r == Command::Play(i as usize) && *final(self) == (Jukebox {
                            sel: row as usize,
                            ..*old(self)
                        }),
                        None => r == Command::Stay && *final(self) == *old(self),
                    }
                },
                Key::Char('r') => if old(self).radio {
                    r == Command::Stay && *final(self) == (Jukebox { radio: false, ..*old(self) })
                } else {
                    final(self).radio_begun(*old(self), r)
                },
                Key::Char('v') | Key::Tab | Key::Right => r == Command::Stay && *final(self) == (
                Jukebox { mode: mode_after(old(self).mode), ..*old(self) }),
                _ => r == Command::Stay && *final(self) == *old(self),
            },
            r matches Command::Play(i) ==> i < old(self).all@.len(),
            r matches Command::Radio(i) ==> i < old(self).all@.len(),
    {
        match key {
            Key::Char('q') => Command::Quit,
            Key::Esc | Key::Left | Key::Backspace => Command::Back,
            Key::Char(' ') => Command::Pause,
            Key::Char('n') => if self.radio {
                self.begin_radio()
            } else {
                match self.play_next() {
                    Some(i) => Command::Play(i),
                    None => Command::Stay,
                }
            },
            Key::Char('r') => if self.radio {
                self.radio = false;
                Command::Stay
            } else {
                self.begin_radio()
            },
            Key::Char('v') | Key::Tab | Key::Right => {
                self.mode = self.mode.next();
                Command::Stay
            },
            _ => Command::Stay,
        }
    }

    /// Handles the mouse on the list.
    pub fn browse_mouse(&mut self, m: Mouse) -> (r: Command)
        requires
            old(self).wf(),
        ensures
            final(self).wf(),
            (*final(self), r) == old(self).after_browse_mouse(m),
            match m {
                Mouse::ScrollUp => r == Command::Stay && *final(self) == (Jukebox {
                    sel: old(self).row_above() as usize,
                    ..*old(self)
                }),
                Mouse::ScrollDown => r == Command::Stay && *final(self) == (Jukebox {
                    sel: old(self).row_below() as usize,
                    ..*old(self)
                }),
                Mouse::Click { column, row } => match hit_from(old(self).rects@, column, row, 0) {
                    Some(ri) => r == old(self).play_row(ri as int) && *final(self) == (Jukebox {
                        sel: ri,
                        ..*old(self)
                    }),
                    None => r == Command::Stay && *final(self) == *old(self),
                },
                Mouse::Other => r == Command::Stay && *final(self) == *old(self),
            },
            r matches Command::Play(i) ==> i < old(self).all@.len(),
    {
        match m {
            Mouse::ScrollUp => {
                self.go_up();
                Command::Stay
            },
            Mouse::ScrollDown => {
                self.go_down();
                Command::Stay
            },
            Mouse::Click { column, row } => match hit(&self.rects, column, row) {
                Some(ri) => {
                    proof {
                        lemma_hit_bound(self.rects@, column, row, 0, self.rows@.len() as int);
                    }
                    self.sel = ri;
                    self.play_at(ri)
                },
                None => Command::Stay,
            },
            Mouse::Other => Command::Stay,
        }
    }
}

// ---- the screen ---------------------------------------------------------------------------------------

/// The rows of the list that a screen shows, between the title and the status.
pub open spec fn visible_rows_of(height: u16) -> int {
    max_int(0, height - 2)
}

/// The first row that is shown: moved as little as the cursor asks for, and never so
/// far that room is left at the end.
pub open spec fn scrolled_to(sel: int, top: int, vis: int, n: int) -> int {
    let t = if sel < top {
        sel
    } else if sel >= top + vis {
        sel + 1 - vis
    } else {
        top
    };
    min_int(t, max_int(0, n - vis))
}

/// The parts of the screen that the first `k` shown rows take.
pub open spec fn row_rects(width: u16, top: int, n: int, k: int) -> Seq<(Rect, usize)>
    decreases k,
{
    if k <= 0 {
        Seq::empty()
    } else if top + k - 1 >= n {
        row_rects(width, top, n, k - 1)
    } else {
        row_rects(width, top, n, k - 1).push(
            (Rect { x: 0, y: k as u16, width, height: 1 }, (top + k - 1) as usize),
        )
    }
}

impl Jukebox {
    pub fn visible_rows(area: Rect) -> (r: usize)
        ensures
            r == visible_rows_of(area.height),
    {
        if area.height > 2 {
            (area.height - 2) as usize
        } else {
            0
        }
    }

    /// Scrolls the list so that the cursor is visible.
    pub fn scroll(&mut self, area: Rect)
        requires
            old(self).wf(),
        ensures
            final(self).wf(),
            *final(self) == (Jukebox { top: final(self).top, ..*old(self) }),
            final(self).top == scrolled_to(
                old(self).sel as int,
                old(self).top as int,
                max_int(1, visible_rows_of(area.height)),
                old(self).rows@.len() as int,
            ),
    {
        let v: usize = Jukebox::visible_rows(area);
        let vis: usize = if v >= 1 {
            v
        } else {
            1
        };
        if self.sel < self.top {
            self.top = self.sel;
        } else if self.sel - self.top >= vis {
            self.top = self.sel - vis + 1;
        }
        let n: usize = self.rows.len();
        let max_top: usize = if n > vis {
            n - vis
        } else {
            0
        };
        if self.top > max_top {
            self.top = max_top;
        }
    }

    /// Lays out the list on a screen: which row is shown where. The list is scrolled so
    /// that the cursor is visible, and what can be clicked is remembered.
    pub fn lay_out(&mut self, area: Rect) -> (r: Vec<(Rect, usize)>)
        requires
            old(self).wf(),
        ensures
            final(self).wf(),
            *final(self) == (Jukebox {
                top: final(self).top,
                rects: final(self).rects,
                ..*old(self)
            }),
            final(self).top == scrolled_to(
                old(self).sel as int,
                old(self).top as int,
                max_int(1, visible_rows_of(area.height)),
                old(self).rows@.len() as int,
            ),
            r@ == row_rects(
                area.width,
                final(self).top as int,
                old(self).rows@.len() as int,
                visible_rows_of(area.height),
            ),
            final(self).rects@ == r@,
    {
        self.scroll(area);
        let vis: usize = Jukebox::visible_rows(area);
        let n: usize = self.rows.len();
        let mut r: Vec<(Rect, usize)> = Vec::new();
        let mut rects: Vec<(Rect, usize)> = Vec::new();
        let mut k: usize = 0;
        while k < vis
            invariant
                k <= vis,
                vis <= 0xffff,
                n == self.rows@.len(),
                r@ == row_rects(area.width, self.top as int, n as int, k as int),
                rects@ == r@,
                forall|i: int| 0 <= i < r@.len() ==> (#[trigger] r@[i]).1 < n,
            decreases vis - k,
        {
            if self.top < n && k < n - self.top {
                let at = (
                    Rect { x: 0, y: k as u16 + 1, width: area.width, height: 1 },
                    self.top + k,
                );
                r.push(at);
                rects.push(at);
            }
            k += 1;
        }
        self.rects = rects;
        r
    }
}

// ---- texts ----------------------------------------------------------------------------------------------

/// The text of a section's name in the list.
pub open spec fn header_line(name: Seq<char>, count: int) -> Seq<char> {
    " "@ + uppered(name) + "  ("@ + decimal(count as nat) + " tunes)"@
}

pub fn header_text(name: &str, count: usize) -> (r: String)
    ensures
        r@ == header_line(name@, count as int),
{
    let mut s = " ".to_string();
    s.append(to_uppercase(name).as_str());
    s.append("  (");
    s.append(decimal_text(count as u64).as_str());
    s.append(" tunes)");
    s
}

/// A text with spaces before it, to a width of `n`.
pub open spec fn padded_left(s: Seq<char>, n: int) -> Seq<char> {
    repeated(' ', n - s.len()) + s
}

fn pad_left(s: &str, n: usize) -> (r: String)
    ensures
        r@ == padded_left(s@, n as int),
{
    let len: usize = chars_of(s).len();
    if len >= n {
        assert(padded_left(s@, n as int) =~= s@);
        s.to_owned()
    } else {
        append(repeat(' ', n - len).as_str(), s)
    }
}

/// The rating from which a tune has a star: nine and a half.
pub const STARRED: u32 = 0x4118_0000;

/// A rating that gives a tune a star.
pub open spec fn is_starred(rating: u32) -> bool {
    STARRED <= rating <= INFINITE
}

/// The text of a tune in the list: marks for the one that is playing and for the very
/// best, its name, rating, group and year.
pub open spec fn tune_line(t: Piece, playing: bool) -> Seq<char> {
    (if playing {
        "\u{25b6} "@
    } else {
        "  "@
    }) + (if is_starred(t.rating) {
        "\u{2605}"@
    } else {
        " "@
    }) + " "@ + padded(cut(t.name, 34), 34) + " "@ + padded_left(rating_text(t.rating), 5) + "  "@
        + cut(t.group, 18) + "  '"@ + two_digits((t.year % 100) as int)
}

pub fn tune_text(t: &Tune, playing: bool) -> (r: String)
    ensures
        r@ == tune_line(t@, playing),
{
    let mut s = if playing {
        "\u{25b6} ".to_string()
    } else {
        "  ".to_string()
    };
    if STARRED <= t.rating && t.rating <= INFINITE {
        s.append("\u{2605}");
    } else {
        s.append(" ");
    }
    s.append(" ");
    s.append(pad(trunc(t.name.as_str(), 34).as_str(), 34).as_str());
    s.append(" ");
    s.append(pad_left(write_rating(t.rating).as_str(), 5).as_str());
    s.append("  ");
    s.append(trunc(t.group.as_str(), 18).as_str());
    s.append("  '");
    s.append(two_digit_text((t.year % 100) as u64).as_str());
    s
}

/// At least two digits of a number.
pub open spec fn two_or_more_digits(n: int) -> Seq<char> {
    if n < 10 {
        "0"@ + decimal(n as nat)
    } else {
        decimal(n as nat)
    }
}

fn two_or_more(n: u64) -> (r: String)
    ensures
        r@ == two_or_more_digits(n as int),
{
    let d = decimal_text(n);
    if n < 10 {
        append("0", d.as_str())
    } else {
        d
    }
}

/// The title of the player: what is playing, by whom, for how long, and how.
pub open spec fn player_line(t: Piece, mode: VisMode, radio: bool, paused: bool, secs: int) -> Seq<
    char,
> {
    "  "@ + (if radio {
        "\u{1f4fb}"@
    } else {
        "\u{266a}"@
    }) + " "@ + t.name + "   by "@ + (if t.composer.len() == 0 {
        t.group
    } else {
        t.composer
    }) + "   ("@ + t.group + " '"@ + two_digits((t.year % 100) as int) + ")   "@
        + two_or_more_digits(secs / 60) + ":"@ + two_or_more_digits(secs % 60) + "   ["@ + mode_name(
        mode,
    ) + "]"@ + (if paused {
        "   [PAUSED]"@
    } else if radio {
        "   [RADIO]"@
    } else {
        ""@
    })
}

impl Jukebox {
    /// The title of the player for a tune that has played for so many frames.
    pub fn player_title(&self, idx: usize, frame: u64, paused: bool) -> (r: String)
        requires
            idx < self.all@.len(),
        ensures
            r@ == player_line(
                self.all@[idx as int]@,
                self.mode,
                self.radio,
                paused,
                frame as int / 50,
            ),
    {
        let t = &self.all[idx];
        let secs: u64 = frame / 50;
        let mut s = "  ".to_string();
        if self.radio {
            s.append("\u{1f4fb}");
        } else {
            s.append("\u{266a}");
        }
        s.append(" ");
        s.append(t.name.as_str());
        s.append("   by ");
        if t.composer.as_str().is_empty() {
            s.append(t.group.as_str());
        } else {
            s.append(t.composer.as_str());
        }
        s.append("   (");
        s.append(t.group.as_str());
        s.append(" '");
        s.append(two_digit_text((t.year % 100) as u64).as_str());
        s.append(")   ");
        s.append(two_or_more(secs / 60).as_str());
        s.append(":");
        s.append(two_or_more(secs % 60).as_str());
        s.append("   [");
        s.append(self.mode.label());
        s.append("]");
        if paused {
            s.append("   [PAUSED]");
        } else if self.radio {
            s.append("   [RADIO]");
        } else {
            s.append("");
        }
        s
    }
}

// ---- voices ------------------------------------------------------------------------------------------------

/// What a voice sounds like.
#[derive(Clone, Copy, PartialEq, Eq, Structural, Debug)]
pub enum Wave {
    Noise,
    Pulse,
    Saw,
    Triangle,
    Silent,
}

/// The wave that the four bits of a voice select; the highest bit that is set decides.
pub open spec fn wave_in(bits: u8) -> Wave {
    if bits % 16 >= 8 {
        Wave::Noise
    } else if bits % 8 >= 4 {
        Wave::Pulse
    } else if bits % 4 >= 2 {
        Wave::Saw
    } else if bits % 2 >= 1 {
        Wave::Triangle
    } else {
        Wave::Silent
    }
}

pub open spec fn wave_label(w: Wave) -> Seq<char> {
    match w {
        Wave::Noise => "noise"@,
        Wave::Pulse => "pulse"@,
        Wave::Saw => "saw"@,
        Wave::Triangle => "tri"@,
        Wave::Silent => "-"@,
    }
}

/// The wave of a voice.
pub fn wave_of(bits: u8) -> (r: Wave)
    ensures
        r == wave_in(bits),
{
    if bits % 16 >= 8 {
        Wave::Noise
    } else if bits % 8 >= 4 {
        Wave::Pulse
    } else if bits % 4 >= 2 {
        Wave::Saw
    } else if bits % 2 >= 1 {
        Wave::Triangle
    } else {
        Wave::Silent
    }
}

pub fn wave_name(bits: u8) -> (r: &'static str)
    ensures
        r@ == wave_label(wave_in(bits)),
{
    match wave_of(bits) {
        Wave::Noise => "noise",
        Wave::Pulse => "pulse",
        Wave::Saw => "saw",
        Wave::Triangle => "tri",
        Wave::Silent => "-",
    }
}

/// How many cells of a voice's meter are filled: its level while a note is on, of
/// fifteen.
pub fn meter_cells(gate: bool, sustain: u8, width: u16) -> (r: usize)
    ensures
        r == (if gate {
            sustain * width / 15
        } else {
            0
        }),
{
    if gate {
        assert(0 <= sustain * width <= 0xff * 0xffff) by (nonlinear_arith)
            requires
                0 <= sustain <= 0xff,
                0 <= width <= 0xffff,
        ;
        ((sustain as u32 * width as u32) / 15) as usize
    } else {
        0
    }
}

// ---- sound ---------------------------------------------------------------------------------------------------

/// How many points the picture of the sound has.
pub const SCOPE_PTS: usize = 256;

/// How many samples are kept ready: few enough for what is seen to go with what is
/// heard.
pub fn ring_target(rate: u32) -> (r: usize)
    ensures
        r == rate / 12,
{
    (rate / 12) as usize
}

/// How many samples are made at a time: one frame's, and at least one.
pub fn frame_len(rate: u32) -> (r: usize)
    ensures
        r == max_int(1, rate as int / 50),
{
    if rate >= 50 {
        (rate / 50) as usize
    } else {
        1
    }
}

/// The picture of some samples: points of them at equal distances.
pub open spec fn scope_points(buf: Seq<i16>) -> Seq<i16> {
    Seq::new(SCOPE_PTS as nat, |i: int| buf[i * buf.len() as int / (SCOPE_PTS as int)])
}

/// Takes the picture of some samples.
pub fn scope_of(buf: &Vec<i16>) -> (r: Vec<i16>)
    requires
        buf@.len() > 0,
    ensures
        r@ == scope_points(buf@),
{
    let mut r: Vec<i16> = Vec::new();
    let n: usize = buf.len();
    let mut i: usize = 0;
    while i < SCOPE_PTS
        invariant
            n == buf@.len(),
            n > 0,
            i <= SCOPE_PTS,
            r@.len() == i,
            forall|k: int| 0 <= k < i ==> #[trigger] r@[k] == scope_points(buf@)[k],
        decreases SCOPE_PTS - i,
    {
        proof {
            assert(0 <= i * n <= 256 * 0xffff_ffff_ffff_ffff) by (nonlinear_arith)
                requires
                    0 <= i <= 256,
                    0 <= n <= 0xffff_ffff_ffff_ffff,
            ;
            assert(i * n <= 255 * n) by (nonlinear_arith)
                requires
                    0 <= i <= 255,
                    0 <= n,
            ;
        }
        let at: u128 = i as u128 * n as u128 / 256;
        r.push(buf[at as usize]);
        i += 1;
    }
    assert(r@ =~= scope_points(buf@));
    r
}

/// How far a sample is from silence.
pub open spec fn loudness(s: i16) -> int {
    if s < 0 {
        -(s as int)
    } else {
        s as int
    }
}

/// The loudest of some samples, as far as it is from silence.
pub open spec fn peak_of(buf: Seq<i16>) -> int
    decreases buf.len(),
{
    if buf.len() == 0 {
        0
    } else {
        max_int(peak_of(buf.drop_last()), loudness(buf.last()))
    }
}

pub fn peak(buf: &Vec<i16>) -> (r: u16)
    ensures
        r == peak_of(buf@),
        r <= 32768,
{
    let mut best: u16 = 0;
    let mut i: usize = 0;
    while i < buf.len()
        invariant
            i <= buf@.len(),
            best == peak_of(buf@.take(i as int)),
            best <= 32768,
        decreases buf@.len() - i,
    {
        assert(buf@.take(i + 1).drop_last() =~= buf@.take(i as int));
        let s: i32 = buf[i] as i32;
        let far: u16 = if s < 0 {
            (-s) as u16
        } else {
            s as u16
        };
        if far > best {
            best = far;
        }
        i += 1;
    }
    assert(buf@.take(i as int) =~= buf@);
    best
}

// ---- laws -------------------------------------------------------------------------------------------------------

/// The row with the cursor is among those that are shown.
pub proof fn law_cursor_is_shown(sel: int, top: int, vis: int, n: int)
    requires
        0 <= sel < n,
        0 <= top,
        1 <= vis,
    ensures
        scrolled_to(sel, top, vis, n) <= sel < scrolled_to(sel, top, vis, n) + vis,
        0 <= scrolled_to(sel, top, vis, n),
{
}

proof fn lemma_next_row(ss: Seq<Section>, rows: Seq<ListRow>, from: int)
    ensures
        next_tune_row(ss, rows, from) matches Some(r) ==> from <= r < rows.len() && tune_in(
            ss,
            rows,
            r,
        ) is Some,
    decreases rows.len() - from,
{
    if 0 <= from < rows.len() && tune_in(ss, rows, from) is None {
        lemma_next_row(ss, rows, from + 1);
    }
}

/// The next tune stands below the one that is playing.
pub proof fn law_next_tune_is_below(ss: Seq<Section>, rows: Seq<ListRow>, p: int)
    ensures
        next_tune_row(ss, rows, p + 1) matches Some(r) ==> p < r && tune_in(ss, rows, r) is Some,
{
    lemma_next_row(ss, rows, p + 1);
}

/// A click on a row that is shown finds that row.
pub proof fn law_clicks_find_their_row(width: u16, top: int, n: int, k: int, i: int, column: u16)
    requires
        0 <= top,
        0 <= i < k <= 0xffff,
        top + i < n,
        n <= usize::MAX,
        column < width,
    ensures
        hit_from(row_rects(width, top, n, k), column, (i + 1) as u16, 0) == Some(
            (top + i) as usize,
        ),
{
    lemma_row_rects(width, top, n, k);
    let rs = row_rects(width, top, n, k);
    lemma_first_hit(rs, column, (i + 1) as u16, 0, i);
}

proof fn lemma_row_rects(width: u16, top: int, n: int, k: int)
    requires
        0 <= top,
        0 <= k <= 0xffff,
        n <= usize::MAX,
    ensures
        row_rects(width, top, n, k).len() == max_int(0, min_int(k, n - top)),
        forall|i: int|
            0 <= i < row_rects(width, top, n, k).len() ==> #[trigger] row_rects(width, top, n, k)[i]
                == (Rect { x: 0, y: (i + 1) as u16, width, height: 1 }, (top + i) as usize),
    decreases k,
{
    if k > 0 {
        lemma_row_rects(width, top, n, k - 1);
        let was = row_rects(width, top, n, k - 1);
        let now = row_rects(width, top, n, k);
        assert forall|i: int| 0 <= i < now.len() implies #[trigger] now[i] == (
            Rect { x: 0, y: (i + 1) as u16, width, height: 1 },
            (top + i) as usize,
        ) by {
            if i < was.len() {
                assert(now[i] == was[i]);
            }
        }
    }
}

/// Going through the visuals comes back to where it began, and not before.
pub proof fn law_visuals_go_round(m: VisMode)
    ensures
        mode_after(mode_after(mode_after(m))) == m,
        mode_after(m) != m,
        mode_after(mode_after(m)) != m,
{
}

// ---- keys and tunes ---------------------------------------------------------------------------------------------------

/// On the list the arrows and the tabulator move the cursor by a row, within the rows; enter
/// plays the tune under it; "r" starts the radio; escape and "q" quit.
pub proof fn law_keys_of_the_list(j: Jukebox, c: char)
    requires
        j.wf(),
        j.rows@.len() > 0,
    ensures
        ({
            let n = j.rows@.len() as int;
            let to = |k: int| (Jukebox { sel: k as usize, ..j }, Command::Stay);
            &&& j.sel + 1 < n ==> j.after_browse_key(Key::Down) == to(j.sel + 1)
            &&& j.sel + 1 == n ==> j.after_browse_key(Key::Down) == to(j.sel as int)
            &&& j.after_browse_key(Key::Tab) == j.after_browse_key(Key::Down)
            &&& j.sel > 0 ==> j.after_browse_key(Key::Up) == to(j.sel - 1)
            &&& j.sel == 0 ==> j.after_browse_key(Key::Up) == to(0)
            &&& j.after_browse_key(Key::Esc) == (j, Command::Quit)
            &&& j.after_browse_key(Key::Char('q')) == (j, Command::Quit)
            &&& c != 'q' && c != 'r' ==> j.after_browse_key(Key::Char(c)) == (j, Command::Stay)
            &&& j.after_browse_key(Key::Char('r')).0.radio
            &&& j.rows@[j.sel as int] matches ListRow::Header(_) ==> j.after_browse_key(Key::Enter) == (
                j,
                Command::Stay,
            )
            &&& j.rows@[j.sel as int] matches ListRow::Tune(g, k) ==> j.after_browse_key(Key::Enter)
                == (j, Command::Play(j.sections()[g as int].1[k as int] as usize))
            &&& j.after_browse_mouse(Mouse::ScrollDown) == j.after_browse_key(Key::Down)
            &&& j.after_browse_mouse(Mouse::ScrollUp) == j.after_browse_key(Key::Up)
        }),
{
}

/// On the player escape and the arrow to the left go back to the list, the space bar pauses,
/// "v" and the arrow to the right change what is seen, "r" turns the radio on and off, and "q"
/// quits. None of them but the radio chooses another tune.
pub proof fn law_keys_of_the_player(j: Jukebox, c: char)
    ensures
        j.after_player_key(Key::Esc) == (j, Command::Back),
        j.after_player_key(Key::Left) == (j, Command::Back),
        j.after_player_key(Key::Backspace) == (j, Command::Back),
        j.after_player_key(Key::Char(' ')) == (j, Command::Pause),
        j.after_player_key(Key::Char('q')) == (j, Command::Quit),
        j.after_player_key(Key::Char('v')).0 == (Jukebox {
            mode: j.after_player_key(Key::Char('v')).0.mode,
            ..j
        }),
        j.after_player_key(Key::Char('v')).0.mode != j.mode,
        j.after_player_key(Key::Right) == j.after_player_key(Key::Char('v')),
        j.after_player_key(Key::Tab) == j.after_player_key(Key::Char('v')),
        j.radio ==> j.after_player_key(Key::Char('r')) == (
            Jukebox { radio: false, ..j },
            Command::Stay,
        ),
        !j.radio ==> j.after_player_key(Key::Char('r')).0.radio,
        c != 'q' && c != ' ' && c != 'n' && c != 'r' && c != 'v' ==> j.after_player_key(Key::Char(c))
            == (j, Command::Stay),
        j.after_player_key(Key::Up) == (j, Command::Stay),
        j.after_player_key(Key::Down) == (j, Command::Stay),
        j.after_player_key(Key::Enter) == (j, Command::Stay),
{
}

/// The next tune is the one in the first row with a tune below the one that is playing; the
/// cursor goes there. With the radio on it is another tune by chance.
pub proof fn law_the_next_tune(j: Jukebox, cur: usize, p: int, r: int)
    requires
        j.wf(),
        j.now == Some(cur),
        0 <= p < r < j.rows@.len(),
        tune_in(j.sections(), j.rows@, p) == Some(cur as int),
        forall|k: int| 0 <= k < p ==> tune_in(j.sections(), j.rows@, k) != Some(cur as int),
        tune_in(j.sections(), j.rows@, r) is Some,
        forall|k: int| p < k < r ==> tune_in(j.sections(), j.rows@, k) is None,
    ensures
        !j.radio ==> j.after_player_key(Key::Char('n')) == (
            Jukebox { sel: r as usize, ..j },
            Command::Play(tune_in(j.sections(), j.rows@, r)->0 as usize),
        ),
        j.radio ==> j.after_player_key(Key::Char('n')).0.radio && (j.after_player_key(
            Key::Char('n'),
        ).1 is Radio),
{
    lemma_row_of_tune(j.sections(), j.rows@, cur as int, 0, p);
    lemma_next_row_at(j.sections(), j.rows@, p + 1, r);
}

proof fn lemma_row_of_tune(ss: Seq<Section>, rows: Seq<ListRow>, idx: int, from: int, p: int)
    requires
        0 <= from <= p < rows.len(),
        tune_in(ss, rows, p) == Some(idx),
        forall|k: int| from <= k < p ==> tune_in(ss, rows, k) != Some(idx),
    ensures
        row_of_tune(ss, rows, idx, from) == Some(p),
    decreases p - from,
{
    if from < p {
        lemma_row_of_tune(ss, rows, idx, from + 1, p);
    }
}

proof fn lemma_next_row_at(ss: Seq<Section>, rows: Seq<ListRow>, from: int, r: int)
    requires
        0 <= from <= r < rows.len(),
        tune_in(ss, rows, r) is Some,
        forall|k: int| from <= k < r ==> tune_in(ss, rows, k) is None,
    ensures
        next_tune_row(ss, rows, from) == Some(r),
    decreases r - from,
{
    if from < r {
        lemma_next_row_at(ss, rows, from + 1, r);
    }
}

/// The rows of the list: the name of each section, and behind it all its tunes in order.
pub proof fn law_rows_of_the_list(ss: Seq<Section>, n: int, k: int)
    requires
        0 <= n < ss.len() <= usize::MAX,
        0 <= k < ss[n].1.len() <= usize::MAX,
    ensures
        ({
            let before = rows_upto(ss, n).len() as int;
            let rows = rows_upto(ss, n + 1);
            &&& rows.len() == before + 1 + ss[n].1.len()
            &&& rows[before] == ListRow::Header(n as usize)
            &&& rows[before + 1 + k] == ListRow::Tune(n as usize, k as usize)
            &&& tune_in(ss, rows, before + 1 + k) == Some(ss[n].1[k])
            &&& tune_in(ss, rows, before) is None
        }),
{
}

/// The radio tries twelve tunes, stays with one for a minute and a half, fifty frames to the
/// second, and goes on where nothing is playing.
pub proof fn law_the_radio_goes_on(j: Jukebox, f: u64)
    ensures
        j.with_radio().0.tries == 11,
        j.with_radio().0.radio,
        radio_moves_on(None),
        radio_moves_on(Some(f)) <==> f >= 4500,
        j.all@.len() > 0 && j.all@.len() <= u64::MAX ==> (j.with_radio().1 matches Command::Radio(i) && i
            < j.all@.len()),
{
    if j.all@.len() > 0 && j.all@.len() <= u64::MAX {
        let r = j.with_radio().0.rng.0;
        let n = j.all.len();
        assert(n == j.all@.len());
        assert(r % (n as u64) < n);
    }
}

/// The wave of a voice is the one of the highest bit that is set.
pub proof fn law_waves(bits: u8)
    requires
        bits < 16,
    ensures
        bits >= 8 ==> wave_in(bits) == Wave::Noise,
        4 <= bits < 8 ==> wave_in(bits) == Wave::Pulse,
        2 <= bits < 4 ==> wave_in(bits) == Wave::Saw,
        bits == 1 ==> wave_in(bits) == Wave::Triangle,
        bits == 0 ==> wave_in(bits) == Wave::Silent,
{
}

/// The peak of some samples is as loud as the loudest of them, to either side.
pub proof fn law_the_peak_is_the_loudest(buf: Seq<i16>, i: int)
    requires
        0 <= i < buf.len(),
    ensures
        -peak_of(buf) <= buf[i] <= peak_of(buf),
        exists|k: int| 0 <= k < buf.len() && (#[trigger] buf[k] == peak_of(buf) || buf[k] == -peak_of(
            buf,
        )) || peak_of(buf) == 0,
    decreases buf.len(),
{
    let init = buf.drop_last();
    assert(buf[buf.len() - 1] == buf.last());
    if init.len() > 0 {
        law_the_peak_is_the_loudest(init, if i < init.len() {
            i
        } else {
            0
        });
        if exists|k: int| 0 <= k < init.len() && (#[trigger] init[k] == peak_of(init) || init[k] == -peak_of(
            init,
        )) {
            let k = choose|k: int| 0 <= k < init.len() && (#[trigger] init[k] == peak_of(init) || init[k]
                == -peak_of(init));
            assert(buf[k] == init[k]);
        }
    } else {
        assert(init =~= Seq::empty());
    }
}

/// The picture of the sound has 256 points, which go through the samples from the first on at
/// equal distances.
pub proof fn law_points_go_through_the_samples(buf: Seq<i16>, i: int)
    requires
        buf.len() > 0,
        0 <= i < 256,
    ensures
        scope_points(buf).len() == 256,
        scope_points(buf)[0] == buf[0],
        buf.len() == 256 ==> scope_points(buf)[i] == buf[i],
        buf.len() == 512 ==> scope_points(buf)[i] == buf[2 * i],
{
    let n = buf.len() as int;
    assert(0 * n / 256 == 0) by (nonlinear_arith);
    assert(i * 256 / 256 == i) by (nonlinear_arith);
    assert(i * 512 / 256 == 2 * i) by (nonlinear_arith);
}

/// A tune has a star from nine and a half on.
pub proof fn law_stars(rating: u32)
    requires
        rating <= 0x7f80_0000,
    ensures
        is_starred(rating) <==> crate::single::units(rating as int) >= crate::single::units(0x4118_0000),
        crate::single::hundredths(0x4118_0000) == 950,
{
    crate::single::law_ranks_order_numbers(0x4118_0000, rating);
    crate::single::lemma_nine_and_a_half();
}

} // verus!
