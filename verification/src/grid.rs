//! Navigation of the cover browsers: a scrolling overview of sections, each with a
//! row of cards, and a grid of the cards of one section. What a card shows and what
//! choosing one does is up to the browser.

use crate::grouping::{group_view, groups_view};
use crate::sections::Section;
use vstd::prelude::*;

verus! {

/// A part of the screen.
#[derive(Clone, Copy, PartialEq, Eq, Structural, Debug)]
pub struct Rect {
    pub x: u16,
    pub y: u16,
    pub width: u16,
    pub height: u16,
}

/// A key that was pressed.
#[derive(Clone, Copy, PartialEq, Eq, Structural, Debug)]
pub enum Key {
    Char(char),
    Esc,
    Enter,
    Tab,
    Backspace,
    Left,
    Right,
    Up,
    Down,
    Other,
}

/// What the mouse did.
#[derive(Clone, Copy, PartialEq, Eq, Structural, Debug)]
pub enum Mouse {
    ScrollUp,
    ScrollDown,
    /// The left button went down there.
    Click { column: u16, row: u16 },
    Other,
}

/// What the cursor of the overview is on: a section's title, or a card of its row.
#[derive(Clone, Copy, PartialEq, Eq, Structural, Debug)]
pub enum OFocus {
    Title(usize),
    /// The section and the place in its row.
    Item(usize, usize),
}

/// Which screen is shown.
#[derive(Clone, Copy, PartialEq, Eq, Structural, Debug)]
pub enum Mode {
    Overview,
    Section,
}

/// What an input comes to.
#[derive(Clone, Copy, PartialEq, Eq, Structural, Debug)]
pub enum Action {
    Quit,
    /// Launch this item of the catalogue.
    Launch(usize),
    /// Nothing more is to be done.
    Stay,
}

/// The sizes that a browser's layout depends on.
#[derive(Clone, Copy, PartialEq, Eq, Structural, Debug)]
pub struct Metrics {
    /// Rows of a section in the overview.
    pub ov_section: u16,
    /// Rows of a section's title.
    pub title_h: u16,
    /// The width that a card of the grid aims at.
    pub target_cw: u16,
}

impl Metrics {
    /// Sizes that a screen can be laid out with.
    pub open spec fn wf(self) -> bool {
        self.ov_section > 0 && self.target_cw > 0 && self.title_h < u16::MAX
    }
}

pub open spec fn min_int(a: int, b: int) -> int {
    if a <= b {
        a
    } else {
        b
    }
}

pub open spec fn max_int(a: int, b: int) -> int {
    if a >= b {
        a
    } else {
        b
    }
}

// ---- what a click hits ---------------------------------------------------------------------------------

/// A place lies in a part of the screen.
pub open spec fn covers(r: Rect, col: u16, row: u16) -> bool {
    r.x <= col < r.x + r.width && r.y <= row < r.y + r.height
}

/// The index of the first part of the screen, from `from` on, that a place lies in.
pub open spec fn hit_from(rects: Seq<(Rect, usize)>, col: u16, row: u16, from: int) -> Option<usize>
    decreases rects.len() - from,
{
    if from < 0 || from >= rects.len() {
        None
    } else if covers(rects[from].0, col, row) {
        Some(rects[from].1)
    } else {
        hit_from(rects, col, row, from + 1)
    }
}

/// What is hit at a place.
pub fn hit(rects: &Vec<(Rect, usize)>, col: u16, row: u16) -> (r: Option<usize>)
    ensures
        r == hit_from(rects@, col, row, 0),
{
    let mut i: usize = 0;
    while i < rects.len()
        invariant
            i <= rects@.len(),
            hit_from(rects@, col, row, 0) == hit_from(rects@, col, row, i as int),
        decreases rects@.len() - i,
    {
        let r: Rect = rects[i].0;
        if col >= r.x && col - r.x < r.width && row >= r.y && row - r.y < r.height {
            return Some(rects[i].1);
        }
        i += 1;
    }
    None
}

// ---- the cursor ------------------------------------------------------------------------------------------

/// The number of cards in a section's row.
pub open spec fn row_len(s: Section, topn: usize) -> int {
    min_int(topn as int, s.1.len() as int)
}

/// What the cursor can be on in the first `n` sections: each title, then the cards of
/// its row.
pub open spec fn focus_upto(ss: Seq<Section>, topn: usize, n: int) -> Seq<OFocus>
    decreases n,
{
    if n <= 0 {
        Seq::empty()
    } else {
        focus_upto(ss, topn, n - 1).push(OFocus::Title((n - 1) as usize)) + Seq::new(
            row_len(ss[n - 1], topn) as nat,
            |j: int| OFocus::Item((n - 1) as usize, j as usize),
        )
    }
}

pub open spec fn focus_list(ss: Seq<Section>, topn: usize) -> Seq<OFocus> {
    focus_upto(ss, topn, ss.len() as int)
}

/// The section that a focus is in.
pub open spec fn section_of(f: OFocus) -> usize {
    match f {
        OFocus::Title(g) => g,
        OFocus::Item(g, _) => g,
    }
}

/// A focus is on something that is there.
pub open spec fn focus_ok(f: OFocus, ss: Seq<Section>, topn: usize) -> bool {
    match f {
        OFocus::Title(g) => g < ss.len(),
        OFocus::Item(g, j) => g < ss.len() && j < row_len(ss[g as int], topn),
    }
}

proof fn lemma_focus_ok(ss: Seq<Section>, topn: usize, n: int)
    requires
        n <= ss.len(),
        ss.len() <= usize::MAX,
    ensures
        forall|i: int|
            0 <= i < focus_upto(ss, topn, n).len() ==> focus_ok(
                #[trigger] focus_upto(ss, topn, n)[i],
                ss,
                topn,
            ),
    decreases n,
{
    if n > 0 {
        lemma_focus_ok(ss, topn, n - 1);
        let init = focus_upto(ss, topn, n - 1);
        let all = focus_upto(ss, topn, n);
        assert forall|i: int| 0 <= i < all.len() implies focus_ok(#[trigger] all[i], ss, topn) by {
            if i < init.len() {
                assert(all[i] == init[i]);
            } else if i == init.len() {
                assert(all[i] == OFocus::Title((n - 1) as usize));
            } else {
                let j = i - init.len() - 1;
                assert(all[i] == OFocus::Item((n - 1) as usize, j as usize));
            }
        }
    }
}

/// The state of a browser's navigation.
pub struct Nav {
    /// Cards in a section's row.
    pub topn: usize,
    pub metrics: Metrics,
    pub ofocus: Vec<OFocus>,
    /// The cursor of the overview.
    pub osel: usize,
    /// The first section that is visible.
    pub otop: usize,
    pub mode: Mode,
    /// The section that is opened, the cursor in it and the first row visible.
    pub section: usize,
    pub sel: usize,
    pub top: usize,
    /// What the last screen showed where.
    pub rects: Vec<(Rect, usize)>,
    pub grid_rects: Vec<(Rect, usize)>,
}

impl Nav {
    /// The navigation belongs to these sections: its cursor is on something in them,
    /// and so is every part of the screen that can be clicked.
    pub open spec fn wf(self, ss: Seq<Section>) -> bool {
        &&& self.metrics.wf()
        &&& 0 < self.topn <= 0xffff
        &&& ss.len() <= usize::MAX
        &&& self.ofocus@ == focus_list(ss, self.topn)
        &&& self.osel < self.ofocus@.len()
        &&& self.section < ss.len()
        &&& forall|i: int|
            0 <= i < self.rects@.len() ==> (#[trigger] self.rects@[i]).1 < self.ofocus@.len()
    }
}

/// Adds what the cursor can be on in a section.
fn add_focus(v: &mut Vec<OFocus>, section: usize, cards: usize)
    ensures
        final(v)@ == old(v)@.push(OFocus::Title(section)) + Seq::new(
            cards as nat,
            |j: int| OFocus::Item(section, j as usize),
        ),
{
    let ghost start = v@.push(OFocus::Title(section));
    v.push(OFocus::Title(section));
    let mut j: usize = 0;
    assert(v@ =~= start + Seq::new(0, |j: int| OFocus::Item(section, j as usize)));
    while j < cards
        invariant
            j <= cards,
            v@ == start + Seq::new(j as nat, |j: int| OFocus::Item(section, j as usize)),
        decreases cards - j,
    {
        v.push(OFocus::Item(section, j));
        j += 1;
        assert(v@ =~= start + Seq::new(j as nat, |j: int| OFocus::Item(section, j as usize)));
    }
}

impl Nav {
    /// The navigation of these sections, with the cursor on the first title.
    pub fn new(groups: &Vec<(String, Vec<usize>)>, topn: usize, metrics: Metrics) -> (nav: Nav)
        ensures
            nav.topn == topn,
            nav.metrics == metrics,
            nav.ofocus@ == focus_list(groups_view(groups@), topn),
            nav.osel == 0,
            nav.otop == 0,
            nav.mode == Mode::Overview,
            nav.section == 0,
            nav.sel == 0,
            nav.top == 0,
            nav.rects@.len() == 0,
            nav.grid_rects@.len() == 0,
            metrics.wf() && 0 < topn <= 0xffff && groups@.len() > 0 ==> nav.wf(
                groups_view(groups@),
            ),
    {
        let ghost ss = groups_view(groups@);
        let mut ofocus: Vec<OFocus> = Vec::new();
        let mut gi: usize = 0;
        assert(ofocus@ =~= focus_upto(ss, topn, 0));
        while gi < groups.len()
            invariant
                ss == groups_view(groups@),
                gi <= groups@.len(),
                ofocus@ == focus_upto(ss, topn, gi as int),
                gi > 0 ==> ofocus@.len() > 0,
            decreases groups@.len() - gi,
        {
            let n: usize = groups[gi].1.len();
            proof {
                assert(ss[gi as int] == group_view(groups@[gi as int]));
                assert(ss[gi as int].1.len() == n);
            }
            let cards: usize = if topn <= n {
                topn
            } else {
                n
            };
            add_focus(&mut ofocus, gi, cards);
            gi += 1;
        }
        Nav {
            topn,
            metrics,
            ofocus,
            osel: 0,
            otop: 0,
            mode: Mode::Overview,
            section: 0,
            sel: 0,
            top: 0,
            rects: Vec::new(),
            grid_rects: Vec::new(),
        }
    }

    /// The section that the cursor of the overview is in.
    pub fn focused_section(&self) -> (r: usize)
        requires
            self.osel < self.ofocus@.len(),
        ensures
            r == section_of(self.ofocus@[self.osel as int]),
    {
        match self.ofocus[self.osel] {
            OFocus::Title(gi) => gi,
            OFocus::Item(gi, _) => gi,
        }
    }
}

// ---- the layout of the overview ---------------------------------------------------------------------------

/// The sizes of the overview: how many sections are visible, the height of each, and
/// the height and the width of a card.
pub struct Overview {
    pub visible: usize,
    pub section_h: u16,
    pub card_h: u16,
    pub card_w: u16,
}

/// The rows of the screen below its header.
pub open spec fn body_of(area: Rect) -> int {
    if area.height == 0 {
        0
    } else {
        area.height - 1
    }
}

/// How many sections are visible: as many as fit, but no more than there are, and
/// one in any case.
pub open spec fn visible_sections(m: Metrics, area: Rect, n: int) -> int {
    max_int(1, min_int(max_int(1, body_of(area) / (m.ov_section as int)), n))
}

pub open spec fn is_overview(o: Overview, m: Metrics, topn: usize, area: Rect, n: int) -> bool {
    let vis = visible_sections(m, area, n);
    let section_h = body_of(area) / vis;
    &&& o.visible == vis
    &&& o.section_h == section_h
    &&& o.card_h == max_int(1, section_h - (m.title_h + 1))
    &&& o.card_w == max_int(1, area.width as int / max_int(1, topn as int))
}

proof fn lemma_div_le(a: int, b: int)
    requires
        0 <= a,
        0 < b,
    ensures
        0 <= a / b <= a,
{
    assert(0 <= a / b <= a) by (nonlinear_arith)
        requires
            0 <= a,
            0 < b,
    ;
}

impl Nav {
    /// The sizes of the overview on a screen.
    pub fn overview_geometry(&self, area: Rect, n_groups: usize) -> (o: Overview)
        requires
            self.metrics.wf(),
            self.topn <= 0xffff,
        ensures
            is_overview(o, self.metrics, self.topn, area, n_groups as int),
            1 <= o.visible <= 0xffff,
    {
        let body: u16 = if area.height == 0 {
            0
        } else {
            area.height - 1
        };
        proof {
            lemma_div_le(body as int, self.metrics.ov_section as int);
        }
        let fit: u16 = body / self.metrics.ov_section;
        let fit: usize = if fit >= 1 {
            fit as usize
        } else {
            1
        };
        let vis: usize = if fit <= n_groups {
            fit
        } else {
            n_groups
        };
        let vis: usize = if vis >= 1 {
            vis
        } else {
            1
        };
        proof {
            lemma_div_le(body as int, vis as int);
        }
        let section_h: u16 = body / (vis as u16);
        let under: u16 = self.metrics.title_h + 1;
        let card_h: u16 = if section_h > under {
            section_h - under
        } else {
            1
        };
        let per_row: u16 = if self.topn >= 1 {
            self.topn as u16
        } else {
            1
        };
        proof {
            lemma_div_le(area.width as int, per_row as int);
        }
        let w: u16 = area.width / per_row;
        let card_w: u16 = if w >= 1 {
            w
        } else {
            1
        };
        Overview { visible: vis, section_h, card_h, card_w }
    }
}

/// The first visible section after scrolling: the focused one is within the window,
/// and the window does not reach beyond the last.
pub open spec fn scrolled(top: int, focus: int, vis: int, n: int) -> int {
    let t = if focus < top {
        focus
    } else if focus >= top + vis {
        focus + 1 - vis
    } else {
        top
    };
    min_int(t, max_int(0, n - vis))
}

impl Nav {
    /// Scrolls the overview so that the focused section is visible.
    pub fn scroll_overview(&mut self, area: Rect, n_groups: usize)
        requires
            old(self).metrics.wf(),
            old(self).topn <= 0xffff,
            old(self).osel < old(self).ofocus@.len(),
        ensures
            *final(self) == (Nav { otop: final(self).otop, ..*old(self) }),
            final(self).otop == scrolled(
                old(self).otop as int,
                section_of(old(self).ofocus@[old(self).osel as int]) as int,
                visible_sections(old(self).metrics, area, n_groups as int),
                n_groups as int,
            ),
    {
        let vis: usize = self.overview_geometry(area, n_groups).visible;
        let focus: usize = self.focused_section();
        let top: usize = self.otop;
        if focus < top {
            self.otop = focus;
        } else if focus - top >= vis {
            self.otop = focus - vis + 1;
        }
        let max_top: usize = if n_groups > vis {
            n_groups - vis
        } else {
            0
        };
        if self.otop > max_top {
            self.otop = max_top;
        }
    }

    /// The place of a section's title among what the cursor can be on.
    pub fn ofocus_index_of_title(&self, gi: usize, groups: &Vec<(String, Vec<usize>)>) -> (r: usize)
        requires
            self.ofocus@ == focus_list(groups_view(groups@), self.topn),
        ensures
            r == focus_upto(
                groups_view(groups@),
                self.topn,
                min_int(gi as int, groups@.len() as int),
            ).len(),
    {
        let ghost ss = groups_view(groups@);
        let mut idx: usize = 0;
        let mut g: usize = 0;
        let total: usize = self.ofocus.len();
        assert(ss.len() == groups@.len());
        while g < groups.len()
            invariant
                ss == groups_view(groups@),
                ss.len() == groups@.len(),
                g <= groups@.len(),
                g <= gi,
                total == focus_list(ss, self.topn).len(),
                idx == focus_upto(ss, self.topn, g as int).len(),
            decreases groups@.len() - g,
        {
            if g == gi {
                return idx;
            }
            let n: usize = groups[g].1.len();
            proof {
                assert(ss[g as int] == group_view(groups@[g as int]));
                assert(ss[g as int].1.len() == n);
                lemma_focus_grows(ss, self.topn, g + 1, ss.len() as int);
            }
            let cards: usize = if self.topn <= n {
                self.topn
            } else {
                n
            };
            idx = idx + 1 + cards;
            g += 1;
        }
        idx
    }
}

proof fn lemma_focus_grows(ss: Seq<Section>, topn: usize, a: int, b: int)
    requires
        0 <= a <= b <= ss.len(),
    ensures
        focus_upto(ss, topn, a).len() <= focus_upto(ss, topn, b).len(),
        forall|i: int|
            0 <= i < focus_upto(ss, topn, a).len() ==> #[trigger] focus_upto(ss, topn, a)[i]
                == focus_upto(ss, topn, b)[i],
    decreases b - a,
{
    if a < b {
        lemma_focus_grows(ss, topn, a, b - 1);
        let init = focus_upto(ss, topn, b - 1);
        let all = focus_upto(ss, topn, b);
        assert forall|i: int| 0 <= i < focus_upto(ss, topn, a).len() implies #[trigger] focus_upto(
            ss,
            topn,
            a,
        )[i] == all[i] by {
            assert(all[i] == init[i]);
        }
    }
}

/// A part of the overview: a section's title, or the card at a place of its row.
#[derive(Clone, Copy, PartialEq, Eq, Structural, Debug)]
pub struct Slot {
    pub rect: Rect,
    /// Its place among what the cursor can be on.
    pub focus: usize,
    pub section: usize,
    pub item: Option<usize>,
}

/// The first `k` cards of a section's row, those that begin on the screen.
pub open spec fn card_slots(
    area: Rect,
    o: Overview,
    y: int,
    section: int,
    title_focus: int,
    k: int,
) -> Seq<Slot>
    decreases k,
{
    if k <= 0 {
        Seq::empty()
    } else {
        let init = card_slots(area, o, y, section, title_focus, k - 1);
        let x = (k - 1) * o.card_w;
        if x >= area.width {
            init
        } else {
            init.push(
                Slot {
                    rect: Rect {
                        x: x as u16,
                        y: y as u16,
                        width: min_int(o.card_w as int, area.width - x) as u16,
                        height: min_int(o.card_h as int, area.height - y) as u16,
                    },
                    focus: (title_focus + k) as usize,
                    section: section as usize,
                    item: Some((k - 1) as usize),
                },
            )
        }
    }
}

/// The parts of one visible section: the title across the screen, and under it the
/// cards, where there is room.
pub open spec fn section_slots(
    area: Rect,
    m: Metrics,
    topn: usize,
    o: Overview,
    ss: Seq<Section>,
    gi: int,
    vi: int,
) -> Seq<Slot> {
    let base = 1 + vi * o.section_h;
    let title_focus = focus_upto(ss, topn, gi).len() as int;
    let title = Slot {
        rect: Rect {
            x: 0,
            y: base as u16,
            width: area.width,
            height: min_int(m.title_h as int, max_int(0, area.height - base)) as u16,
        },
        focus: title_focus as usize,
        section: gi as usize,
        item: None,
    };
    let y = base + m.title_h;
    if y >= area.height {
        seq![title]
    } else {
        seq![title] + card_slots(area, o, y, gi, title_focus, row_len(ss[gi], topn))
    }
}

/// The parts of the first `k` visible sections.
pub open spec fn overview_slots(
    area: Rect,
    m: Metrics,
    topn: usize,
    o: Overview,
    ss: Seq<Section>,
    otop: int,
    k: int,
) -> Seq<Slot>
    decreases k,
{
    if k <= 0 {
        Seq::empty()
    } else if otop + k - 1 >= ss.len() {
        overview_slots(area, m, topn, o, ss, otop, k - 1)
    } else {
        overview_slots(area, m, topn, o, ss, otop, k - 1) + section_slots(
            area,
            m,
            topn,
            o,
            ss,
            otop + k - 1,
            k - 1,
        )
    }
}

fn add_cards(
    v: &mut Vec<Slot>,
    area: Rect,
    o: &Overview,
    y: u16,
    section: usize,
    title_focus: usize,
    cards: usize,
)
    requires
        y < area.height,
        title_focus + cards <= usize::MAX,
    ensures
        final(v)@ == old(v)@ + card_slots(
            area,
            *o,
            y as int,
            section as int,
            title_focus as int,
            cards as int,
        ),
{
    let ghost start = v@;
    let mut x: u32 = 0;
    let mut j: usize = 0;
    assert(v@ =~= start + card_slots(
        area,
        *o,
        y as int,
        section as int,
        title_focus as int,
        0,
    ));
    while j < cards
        invariant
            start == old(v)@,
            y < area.height,
            title_focus + cards <= usize::MAX,
            j <= cards,
            x == j * o.card_w,
            j > 0 ==> (j - 1) * o.card_w < area.width,
            v@ == start + card_slots(
                area,
                *o,
                y as int,
                section as int,
                title_focus as int,
                j as int,
            ),
        decreases cards - j,
    {
        if x >= area.width as u32 {
            proof {
                lemma_cards_end(
                    area,
                    *o,
                    y as int,
                    section as int,
                    title_focus as int,
                    j as int,
                    cards as int,
                );
            }
            return ;
        }
        let left: u16 = area.width - x as u16;
        let width: u16 = if o.card_w <= left {
            o.card_w
        } else {
            left
        };
        let room: u16 = area.height - y;
        let height: u16 = if o.card_h <= room {
            o.card_h
        } else {
            room
        };
        let ghost was = v@;
        v.push(
            Slot {
                rect: Rect { x: x as u16, y, width, height },
                focus: title_focus + 1 + j,
                section,
                item: Some(j),
            },
        );
        proof {
            assert(j * o.card_w + o.card_w == (j + 1) * o.card_w) by (nonlinear_arith);
            assert(v@ =~= start + card_slots(
                area,
                *o,
                y as int,
                section as int,
                title_focus as int,
                j + 1,
            ));
        }
        x = x + o.card_w as u32;
        j += 1;
    }
}

proof fn lemma_cards_end(
    area: Rect,
    o: Overview,
    y: int,
    section: int,
    title_focus: int,
    j: int,
    k: int,
)
    requires
        0 <= j <= k,
        j * o.card_w >= area.width,
    ensures
        card_slots(area, o, y, section, title_focus, k) == card_slots(
            area,
            o,
            y,
            section,
            title_focus,
            j,
        ),
    decreases k - j,
{
    if j < k {
        lemma_cards_end(area, o, y, section, title_focus, j, k - 1);
        assert((k - 1) * o.card_w >= j * o.card_w) by (nonlinear_arith)
            requires
                j <= k - 1,
                o.card_w >= 0,
        ;
    }
}

proof fn lemma_focus_len(ss: Seq<Section>, topn: usize, n: int)
    requires
        0 < n <= ss.len(),
    ensures
        focus_upto(ss, topn, n).len() == focus_upto(ss, topn, n - 1).len() + 1 + row_len(
            ss[n - 1],
            topn,
        ),
{
}

impl Nav {
    /// What the overview shows where: of each visible section the title and the cards
    /// of its row. What can be clicked is remembered.
    pub fn overview_layout(&mut self, area: Rect, groups: &Vec<(String, Vec<usize>)>) -> (r: Vec<
        Slot,
    >)
        requires
            old(self).wf(groups_view(groups@)),
        ensures
            exists|o: Overview| #[trigger]
                is_overview(
                    o,
                    old(self).metrics,
                    old(self).topn,
                    area,
                    groups@.len() as int,
                ) && r@ == overview_slots(
                    area,
                    old(self).metrics,
                    old(self).topn,
                    o,
                    groups_view(groups@),
                    old(self).otop as int,
                    o.visible as int,
                ),
            final(self).rects@ == r@.map_values(|s: Slot| (s.rect, s.focus)),
            *final(self) == (Nav { rects: final(self).rects, ..*old(self) }),
            final(self).wf(groups_view(groups@)),
    {
        let ghost ss = groups_view(groups@);
        let ghost was = *self;
        assert(ss.len() == groups@.len());
        let o = self.overview_geometry(area, groups.len());
        let m: Metrics = self.metrics;
        let topn: usize = self.topn;
        let total: usize = self.ofocus.len();
        let mut slots: Vec<Slot> = Vec::new();
        let mut vi: usize = 0;
        assert(slots@ =~= overview_slots(area, m, topn, o, ss, self.otop as int, 0));
        while vi < o.visible
            invariant
                ss == groups_view(groups@),
                ss.len() == groups@.len(),
                *self == was,
                self.wf(ss),
                m == self.metrics,
                topn == self.topn,
                total == self.ofocus@.len(),
                is_overview(o, m, topn, area, groups@.len() as int),
                o.visible <= 0xffff,
                vi <= o.visible,
                slots@ == overview_slots(area, m, topn, o, ss, self.otop as int, vi as int),
                forall|i: int| 0 <= i < slots@.len() ==> (#[trigger] slots@[i]).focus < total,
            decreases o.visible - vi,
        {
            if groups.len() <= vi || self.otop >= groups.len() - vi {
                vi += 1;
                continue ;
            }
            let gi: usize = self.otop + vi;
            proof {
                lemma_base_fits(area, o, m, topn, ss.len() as int, vi as int);
            }
            let base: u32 = 1 + vi as u32 * o.section_h as u32;
            let title_focus: usize = self.ofocus_index_of_title(gi, groups);
            let n: usize = groups[gi].1.len();
            proof {
                assert(ss[gi as int] == group_view(groups@[gi as int]));
                assert(ss[gi as int].1.len() == n);
                lemma_focus_len(ss, topn, gi + 1);
                lemma_focus_grows(ss, topn, gi + 1, ss.len() as int);
            }
            let room: u16 = if base < area.height as u32 {
                area.height - base as u16
            } else {
                0
            };
            let height: u16 = if m.title_h <= room {
                m.title_h
            } else {
                room
            };
            let ghost before = slots@;
            let title = Slot {
                rect: Rect { x: 0, y: base as u16, width: area.width, height },
                focus: title_focus,
                section: gi,
                item: None,
            };
            slots.push(title);
            let y: u32 = base + m.title_h as u32;
            if y < area.height as u32 {
                let cards: usize = if topn <= n {
                    topn
                } else {
                    n
                };
                add_cards(&mut slots, area, &o, y as u16, gi, title_focus, cards);
                proof {
                    lemma_card_focus(
                        area,
                        o,
                        y as int,
                        gi as int,
                        title_focus as int,
                        cards as int,
                        total as int,
                    );
                    let added = card_slots(
                        area,
                        o,
                        y as int,
                        gi as int,
                        title_focus as int,
                        cards as int,
                    );
                    assert(slots@ =~= before + (seq![title] + added));
                    assert forall|i: int| 0 <= i < slots@.len() implies (#[trigger] slots@[i]).focus
                        < total by {
                        if i < before.len() {
                            assert(slots@[i] == before[i]);
                        } else if i > before.len() {
                            assert(slots@[i] == added[i - before.len() - 1]);
                        }
                    }
                }
            } else {
                assert(slots@ =~= before + seq![title]);
            }
            vi += 1;
        }
        let mut rects: Vec<(Rect, usize)> = Vec::new();
        let mut k: usize = 0;
        while k < slots.len()
            invariant
                k <= slots@.len(),
                rects@.len() == k,
                forall|i: int|
                    0 <= i < k ==> #[trigger] rects@[i] == (slots@[i].rect, slots@[i].focus),
            decreases slots@.len() - k,
        {
            rects.push((slots[k].rect, slots[k].focus));
            k += 1;
        }
        assert(rects@ =~= slots@.map_values(|s: Slot| (s.rect, s.focus)));
        self.rects = rects;
        slots
    }
}

proof fn lemma_base_fits(area: Rect, o: Overview, m: Metrics, topn: usize, n: int, vi: int)
    requires
        is_overview(o, m, topn, area, n),
        0 <= vi < o.visible,
    ensures
        0 <= vi * o.section_h <= 0xffff,
        1 + vi * o.section_h <= 0xffff,
{
    let vis = o.visible as int;
    let body = body_of(area);
    assert(vis * (body / vis) <= body) by (nonlinear_arith)
        requires
            vis > 0,
            body >= 0,
    ;
    assert(0 <= vi * o.section_h <= vis * o.section_h) by (nonlinear_arith)
        requires
            0 <= vi < vis,
            o.section_h >= 0,
            vis == o.visible,
    ;
}

proof fn lemma_card_focus(
    area: Rect,
    o: Overview,
    y: int,
    section: int,
    title_focus: int,
    k: int,
    total: int,
)
    requires
        0 <= title_focus,
        title_focus + k < total <= usize::MAX,
    ensures
        forall|i: int|
            0 <= i < card_slots(area, o, y, section, title_focus, k).len() ==> (
            #[trigger] card_slots(area, o, y, section, title_focus, k)[i]).focus < total,
    decreases k,
{
    if k > 0 {
        lemma_card_focus(area, o, y, section, title_focus, k - 1, total);
        let init = card_slots(area, o, y, section, title_focus, k - 1);
        let all = card_slots(area, o, y, section, title_focus, k);
        assert forall|i: int| 0 <= i < all.len() implies (#[trigger] all[i]).focus < total by {
            if i < init.len() {
                assert(all[i] == init[i]);
            }
        }
    }
}

// ---- the grid of one section ------------------------------------------------------------------------------

/// The sizes of the grid: its columns and the rows that are visible, and the width
/// and the height of a card.
pub struct Grid {
    pub cols: usize,
    pub rows: usize,
    pub card_w: u16,
    pub card_h: u16,
}

/// The columns of a grid on a screen of this width.
pub open spec fn columns(m: Metrics, width: u16) -> int {
    max_int(1, width as int / (m.target_cw as int))
}

/// The rows of a screen that are left below a head of this height.
pub open spec fn below_head(area: Rect, head: u16) -> int {
    max_int(0, area.height - head)
}

/// These are the sizes of the grid on a screen, below a head.
pub open spec fn is_grid(g: Grid, m: Metrics, target_ch: u16, area: Rect, head: u16) -> bool {
    let cols = columns(m, area.width);
    let rows = max_int(1, below_head(area, head) / (target_ch as int));
    &&& g.cols == cols
    &&& g.rows == rows
    &&& g.card_w == max_int(1, area.width as int / cols)
    &&& g.card_h == max_int(1, below_head(area, head) / rows)
}

impl Nav {
    /// The columns of the grid on a screen of this width.
    pub fn grid_cols(&self, term_cols: u16) -> (r: usize)
        requires
            self.metrics.target_cw > 0,
        ensures
            r == columns(self.metrics, term_cols),
            1 <= r <= 0xffff,
    {
        proof {
            lemma_div_le(term_cols as int, self.metrics.target_cw as int);
        }
        let c: u16 = term_cols / self.metrics.target_cw;
        if c >= 1 {
            c as usize
        } else {
            1
        }
    }

    /// The sizes of the grid on a screen, below a head.
    pub fn grid_geometry(&self, area: Rect, target_ch: u16, head: u16) -> (g: Grid)
        requires
            self.metrics.target_cw > 0,
            target_ch > 0,
        ensures
            is_grid(g, self.metrics, target_ch, area, head),
            1 <= g.cols <= 0xffff,
            1 <= g.rows <= 0xffff,
    {
        let cols: usize = self.grid_cols(area.width);
        let body: u16 = if area.height <= head {
            0
        } else {
            area.height - head
        };
        proof {
            lemma_div_le(body as int, target_ch as int);
        }
        let fit: u16 = body / target_ch;
        let rows: usize = if fit >= 1 {
            fit as usize
        } else {
            1
        };
        proof {
            lemma_div_le(area.width as int, cols as int);
            lemma_div_le(body as int, rows as int);
        }
        let w: u16 = area.width / (cols as u16);
        let h: u16 = body / (rows as u16);
        Grid {
            cols,
            rows,
            card_w: if w >= 1 {
                w
            } else {
                1
            },
            card_h: if h >= 1 {
                h
            } else {
                1
            },
        }
    }
}

/// The first visible row of the grid, when the cursor's row has to be visible.
pub open spec fn scrolled_rows(top: int, row: int, rows: int) -> int {
    if row < top {
        row
    } else if row >= top + rows {
        row + 1 - rows
    } else {
        top
    }
}

/// The parts of the grid up to the cell `k`, counted row by row: those cells that have
/// an item and begin on the screen, each with its item.
pub open spec fn grid_cells(area: Rect, head: u16, g: Grid, top: int, n: int, k: int) -> Seq<
    (Rect, usize),
>
    decreases k,
{
    if k <= 0 {
        Seq::empty()
    } else {
        let init = grid_cells(area, head, g, top, n, k - 1);
        let r = (k - 1) / (g.cols as int);
        let c = (k - 1) % (g.cols as int);
        let idx = (top + r) * g.cols + c;
        let x = c * g.card_w;
        let y = head + r * g.card_h;
        if idx >= n || x >= area.width || y >= area.height {
            init
        } else {
            init.push(
                (
                    Rect {
                        x: x as u16,
                        y: y as u16,
                        width: min_int(g.card_w as int, area.width - x) as u16,
                        height: min_int(g.card_h as int, area.height - y) as u16,
                    },
                    idx as usize,
                ),
            )
        }
    }
}

proof fn lemma_cell(cols: int, r: int, c: int)
    requires
        0 <= c < cols,
        0 <= r,
    ensures
        (r * cols + c) / cols == r,
        (r * cols + c) % cols == c,
{
    assert((r * cols + c) / cols == r && (r * cols + c) % cols == c) by (nonlinear_arith)
        requires
            0 <= c < cols,
            0 <= r,
    ;
}

/// One cell of the grid, where it has an item and begins on the screen.
fn grid_cell(
    area: Rect,
    head: u16,
    g: &Grid,
    top: usize,
    n: usize,
    r: usize,
    c: usize,
) -> (p: Option<(Rect, usize)>)
    requires
        1 <= g.cols <= 0xffff,
        1 <= g.rows <= 0xffff,
        r < g.rows,
        c < g.cols,
    ensures
        ({
            let k = r * g.cols + c;
            let init = grid_cells(area, head, *g, top as int, n as int, k);
            grid_cells(area, head, *g, top as int, n as int, k + 1) == match p {
                Some(cell) => init.push(cell),
                None => init,
            }
        }),
        p matches Some(cell) ==> cell.1 < n,
{
    let ghost k = r * g.cols + c;
    proof {
        lemma_cell(g.cols as int, r as int, c as int);
        assert(k >= 0) by (nonlinear_arith)
            requires
                k == r * g.cols + c,
                r >= 0,
                g.cols >= 1,
                c >= 0,
        ;
        assert(c * g.card_w <= 0xffff * 0xffff && r * g.card_h <= 0xffff * 0xffff && 0 <= c
            * g.card_w && 0 <= r * g.card_h) by (nonlinear_arith)
            requires
                0 <= c <= 0xffff,
                0 <= r <= 0xffff,
                0 <= g.card_w <= 0xffff,
                0 <= g.card_h <= 0xffff,
        ;
        assert((top + r) * g.cols + c <= 0x1_0000_0000_0000_0000_0000) by (nonlinear_arith)
            requires
                0 <= top <= 0xffff_ffff_ffff_ffff,
                0 <= r <= 0xffff,
                1 <= g.cols <= 0xffff,
                0 <= c <= 0xffff,
        ;
    }
    let idx: u128 = (top as u128 + r as u128) * g.cols as u128 + c as u128;
    let x: u64 = c as u64 * g.card_w as u64;
    let y: u64 = head as u64 + r as u64 * g.card_h as u64;
    if idx >= n as u128 || x >= area.width as u64 || y >= area.height as u64 {
        return None;
    }
    let left: u16 = area.width - x as u16;
    let room: u16 = area.height - y as u16;
    Some(
        (
            Rect {
                x: x as u16,
                y: y as u16,
                width: if g.card_w <= left {
                    g.card_w
                } else {
                    left
                },
                height: if g.card_h <= room {
                    g.card_h
                } else {
                    room
                },
            },
            idx as usize,
        ),
    )
}

impl Nav {
    /// What the grid of a section with `n` items shows where, below a head: the card at
    /// each part of the screen. The grid is scrolled so that the cursor is visible, and
    /// what can be clicked is remembered.
    pub fn grid_layout(&mut self, area: Rect, head: u16, target_ch: u16, n: usize) -> (r: Vec<
        (Rect, usize),
    >)
        requires
            old(self).metrics.target_cw > 0,
            target_ch > 0,
        ensures
            exists|g: Grid| #[trigger]
                is_grid(g, old(self).metrics, target_ch, area, head) && final(self).top == scrolled_rows(
                    old(self).top as int,
                    old(self).sel as int / (g.cols as int),
                    g.rows as int,
                ) && r@ == grid_cells(
                    area,
                    head,
                    g,
                    final(self).top as int,
                    n as int,
                    g.rows * g.cols,
                ),
            final(self).grid_rects@ == r@,
            *final(self) == (Nav {
                top: final(self).top,
                grid_rects: final(self).grid_rects,
                ..*old(self)
            }),
            forall|i: int| 0 <= i < r@.len() ==> (#[trigger] r@[i]).1 < n,
    {
        let g = self.grid_geometry(area, target_ch, head);
        proof {
            lemma_div_le(self.sel as int, g.cols as int);
        }
        let row: usize = self.sel / g.cols;
        let top: usize = if row < self.top {
            row
        } else if row - self.top >= g.rows {
            row - g.rows + 1
        } else {
            self.top
        };
        let mut cells: Vec<(Rect, usize)> = Vec::new();
        let mut r: usize = 0;
        assert(cells@ =~= grid_cells(area, head, g, top as int, n as int, 0));
        while r < g.rows
            invariant
                1 <= g.cols <= 0xffff,
                1 <= g.rows <= 0xffff,
                r <= g.rows,
                cells@ == grid_cells(area, head, g, top as int, n as int, r * g.cols),
                forall|i: int| 0 <= i < cells@.len() ==> (#[trigger] cells@[i]).1 < n,
            decreases g.rows - r,
        {
            let mut c: usize = 0;
            while c < g.cols
                invariant
                    1 <= g.cols <= 0xffff,
                    1 <= g.rows <= 0xffff,
                    r < g.rows,
                    c <= g.cols,
                    cells@ == grid_cells(area, head, g, top as int, n as int, r * g.cols + c),
                    forall|i: int| 0 <= i < cells@.len() ==> (#[trigger] cells@[i]).1 < n,
                decreases g.cols - c,
            {
                match grid_cell(area, head, &g, top, n, r, c) {
                    Some(cell) => cells.push(cell),
                    None => {},
                }
                c += 1;
            }
            assert(r * g.cols + g.cols == (r + 1) * g.cols) by (nonlinear_arith);
            r += 1;
        }
        let mut rects: Vec<(Rect, usize)> = Vec::new();
        let mut k: usize = 0;
        while k < cells.len()
            invariant
                k <= cells@.len(),
                rects@ == cells@.take(k as int),
            decreases cells@.len() - k,
        {
            rects.push(cells[k]);
            k += 1;
            assert(cells@.take(k as int) =~= cells@.take(k - 1).push(cells@[k - 1]));
        }
        assert(cells@.take(k as int) =~= cells@);
        self.top = top;
        self.grid_rects = rects;
        cells
    }
}

// ---- input -------------------------------------------------------------------------------------------------

/// A cursor one further, or so many back, within a list of `n`.
pub open spec fn forward(sel: int, step: int, n: int) -> int {
    min_int(sel + step, max_int(0, n - 1))
}

pub open spec fn backward(sel: int, step: int) -> int {
    max_int(0, sel - step)
}

fn go_forward(sel: usize, step: usize, n: usize) -> (r: usize)
    ensures
        r == forward(sel as int, step as int, n as int),
{
    let last: usize = if n > 0 {
        n - 1
    } else {
        0
    };
    if sel >= last || step >= last - sel {
        last
    } else {
        sel + step
    }
}

fn go_backward(sel: usize, step: usize) -> (r: usize)
    ensures
        r == backward(sel as int, step as int),
{
    if sel > step {
        sel - step
    } else {
        0
    }
}

impl Nav {
    /// The navigation and the outcome when what the cursor is on is activated: a
    /// title opens its section, a card launches its item.
    pub open spec fn activated(self, ss: Seq<Section>) -> (Nav, Action) {
        match self.ofocus@[self.osel as int] {
            OFocus::Title(g) => (
                Nav { mode: Mode::Section, section: g, sel: 0, top: 0, ..self },
                Action::Stay,
            ),
            OFocus::Item(g, j) => (self, Action::Launch(ss[g as int].1[j as int] as usize)),
        }
    }

    /// The overview's cursor moved by one.
    pub open spec fn stepped(self, next: bool) -> Nav {
        Nav {
            osel: if next {
                forward(self.osel as int, 1, self.ofocus@.len() as int) as usize
            } else {
                backward(self.osel as int, 1) as usize
            },
            ..self
        }
    }

    /// The navigation and the outcome of a key in the overview.
    pub open spec fn after_overview_key(self, key: Key, ss: Seq<Section>) -> (Nav, Action) {
        match key {
            Key::Char(c) => (
                self,
                if c == 'q' {
                    Action::Quit
                } else {
                    Action::Stay
                },
            ),
            Key::Esc => (self, Action::Quit),
            Key::Right | Key::Down | Key::Tab => (self.stepped(true), Action::Stay),
            Key::Left | Key::Up => (self.stepped(false), Action::Stay),
            Key::Enter => self.activated(ss),
            _ => (self, Action::Stay),
        }
    }

    /// The navigation and the outcome of the mouse in the overview.
    pub open spec fn after_overview_mouse(self, m: Mouse, ss: Seq<Section>) -> (Nav, Action) {
        match m {
            Mouse::ScrollUp => (self.stepped(false), Action::Stay),
            Mouse::ScrollDown => (self.stepped(true), Action::Stay),
            Mouse::Click { column, row } => match hit_from(self.rects@, column, row, 0) {
                Some(i) => Nav { osel: i, ..self }.activated(ss),
                None => (self, Action::Stay),
            },
            Mouse::Other => (self, Action::Stay),
        }
    }

    /// The navigation and the outcome of a key in an opened section.
    pub open spec fn after_section_key(self, key: Key, items: Seq<usize>, term_cols: u16) -> (
        Nav,
        Action,
    ) {
        let n = items.len() as int;
        let cols = columns(self.metrics, term_cols);
        match key {
            Key::Char(c) => (
                self,
                if c == 'q' {
                    Action::Quit
                } else {
                    Action::Stay
                },
            ),
            Key::Esc => (Nav { mode: Mode::Overview, ..self }, Action::Stay),
            Key::Right => (
                Nav { sel: forward(self.sel as int, 1, n) as usize, ..self },
                Action::Stay,
            ),
            Key::Left => (Nav { sel: backward(self.sel as int, 1) as usize, ..self }, Action::Stay),
            Key::Down => (
                Nav { sel: forward(self.sel as int, cols, n) as usize, ..self },
                Action::Stay,
            ),
            Key::Up => (Nav { sel: backward(self.sel as int, cols) as usize, ..self }, Action::Stay),
            Key::Enter => (self, Action::Launch(items[self.sel as int])),
            _ => (self, Action::Stay),
        }
    }

    /// The navigation and the outcome of the mouse in an opened section.
    pub open spec fn after_section_mouse(self, m: Mouse, items: Seq<usize>, term_cols: u16) -> (
        Nav,
        Action,
    ) {
        let n = items.len() as int;
        let cols = columns(self.metrics, term_cols);
        match m {
            Mouse::ScrollUp => (
                Nav { sel: backward(self.sel as int, cols) as usize, ..self },
                Action::Stay,
            ),
            Mouse::ScrollDown => (
                Nav { sel: forward(self.sel as int, cols, n) as usize, ..self },
                Action::Stay,
            ),
            Mouse::Click { column, row } => match hit_from(self.grid_rects@, column, row, 0) {
                Some(i) => (self, Action::Launch(items[i as int])),
                None => (self, Action::Stay),
            },
            Mouse::Other => (self, Action::Stay),
        }
    }
}

/// What is hit is among what there is.
pub proof fn lemma_hit_bound(rects: Seq<(Rect, usize)>, col: u16, row: u16, from: int, bound: int)
    requires
        0 <= from,
        forall|i: int| 0 <= i < rects.len() ==> (#[trigger] rects[i]).1 < bound,
    ensures
        (hit_from(rects, col, row, from) matches Some(k) ==> k < bound),
    decreases rects.len() - from,
{
    if from < rects.len() && !covers(rects[from].0, col, row) {
        lemma_hit_bound(rects, col, row, from + 1, bound);
    }
}

impl Nav {
    fn activate_overview(&mut self, groups: &Vec<(String, Vec<usize>)>) -> (a: Action)
        requires
            old(self).wf(groups_view(groups@)),
        ensures
            (*final(self), a) == old(self).activated(groups_view(groups@)),
            final(self).wf(groups_view(groups@)),
    {
        let ghost ss = groups_view(groups@);
        proof {
            assert(ss.len() == groups@.len());
            lemma_focus_ok(ss, self.topn, ss.len() as int);
            assert(focus_ok(self.ofocus@[self.osel as int], ss, self.topn));
        }
        match self.ofocus[self.osel] {
            OFocus::Title(gi) => {
                self.mode = Mode::Section;
                self.section = gi;
                self.sel = 0;
                self.top = 0;
                Action::Stay
            },
            OFocus::Item(gi, j) => {
                proof {
                    assert(ss[gi as int] == group_view(groups@[gi as int]));
                    assert(ss[gi as int].1.len() == groups@[gi as int].1@.len());
                    assert(ss[gi as int].1[j as int] == groups@[gi as int].1@[j as int]);
                }
                Action::Launch(groups[gi].1[j])
            },
        }
    }

    /// Handles a key in the overview.
    pub fn overview_key(&mut self, code: Key, groups: &Vec<(String, Vec<usize>)>) -> (a: Action)
        requires
            old(self).wf(groups_view(groups@)),
        ensures
            (*final(self), a) == old(self).after_overview_key(code, groups_view(groups@)),
            final(self).wf(groups_view(groups@)),
    {
        match code {
            Key::Char(c) => if c == 'q' {
                Action::Quit
            } else {
                Action::Stay
            },
            Key::Esc => Action::Quit,
            Key::Right | Key::Down | Key::Tab => {
                self.osel = go_forward(self.osel, 1, self.ofocus.len());
                Action::Stay
            },
            Key::Left | Key::Up => {
                self.osel = go_backward(self.osel, 1);
                Action::Stay
            },
            Key::Enter => self.activate_overview(groups),
            _ => Action::Stay,
        }
    }

    /// Handles the mouse in the overview.
    pub fn overview_mouse(&mut self, m: Mouse, groups: &Vec<(String, Vec<usize>)>) -> (a: Action)
        requires
            old(self).wf(groups_view(groups@)),
        ensures
            (*final(self), a) == old(self).after_overview_mouse(m, groups_view(groups@)),
            final(self).wf(groups_view(groups@)),
    {
        match m {
            Mouse::ScrollUp => {
                self.osel = go_backward(self.osel, 1);
                Action::Stay
            },
            Mouse::ScrollDown => {
                self.osel = go_forward(self.osel, 1, self.ofocus.len());
                Action::Stay
            },
            Mouse::Click { column, row } => {
                proof {
                    lemma_hit_bound(self.rects@, column, row, 0, self.ofocus@.len() as int);
                }
                match hit(&self.rects, column, row) {
                    Some(i) => {
                        self.osel = i;
                        self.activate_overview(groups)
                    },
                    None => Action::Stay,
                }
            },
            Mouse::Other => Action::Stay,
        }
    }

    /// Handles a key in an opened section with these items.
    pub fn section_key(&mut self, code: Key, items: &[usize], term_cols: u16) -> (a: Action)
        requires
            old(self).metrics.target_cw > 0,
            old(self).sel < items@.len(),
        ensures
            (*final(self), a) == old(self).after_section_key(code, items@, term_cols),
            final(self).sel < items@.len(),
    {
        let n: usize = items.len();
        let cols: usize = self.grid_cols(term_cols);
        match code {
            Key::Char(c) => if c == 'q' {
                Action::Quit
            } else {
                Action::Stay
            },
            Key::Esc => {
                self.mode = Mode::Overview;
                Action::Stay
            },
            Key::Right => {
                self.sel = go_forward(self.sel, 1, n);
                Action::Stay
            },
            Key::Left => {
                self.sel = go_backward(self.sel, 1);
                Action::Stay
            },
            Key::Down => {
                self.sel = go_forward(self.sel, cols, n);
                Action::Stay
            },
            Key::Up => {
                self.sel = go_backward(self.sel, cols);
                Action::Stay
            },
            Key::Enter => Action::Launch(items[self.sel]),
            _ => Action::Stay,
        }
    }

    /// Handles the mouse in an opened section with these items.
    pub fn section_mouse(&mut self, m: Mouse, items: &[usize], term_cols: u16) -> (a: Action)
        requires
            old(self).metrics.target_cw > 0,
            old(self).sel < items@.len(),
            forall|i: int|
                0 <= i < old(self).grid_rects@.len() ==> (#[trigger] old(self).grid_rects@[i]).1
                    < items@.len(),
        ensures
            (*final(self), a) == old(self).after_section_mouse(m, items@, term_cols),
            final(self).sel < items@.len(),
    {
        let n: usize = items.len();
        let cols: usize = self.grid_cols(term_cols);
        match m {
            Mouse::ScrollUp => {
                self.sel = go_backward(self.sel, cols);
                Action::Stay
            },
            Mouse::ScrollDown => {
                self.sel = go_forward(self.sel, cols, n);
                Action::Stay
            },
            Mouse::Click { column, row } => {
                proof {
                    lemma_hit_bound(self.grid_rects@, column, row, 0, items@.len() as int);
                }
                match hit(&self.grid_rects, column, row) {
                    Some(i) => Action::Launch(items[i]),
                    None => Action::Stay,
                }
            },
            Mouse::Other => Action::Stay,
        }
    }
}

// ---- laws ----------------------------------------------------------------------------------------------------

/// After scrolling the focused section is visible, and the window lies within the
/// sections.
pub proof fn law_focus_is_visible(top: int, focus: int, vis: int, n: int)
    requires
        0 <= top,
        0 <= focus < n,
        1 <= vis <= n,
    ensures
        scrolled(top, focus, vis, n) <= focus < scrolled(top, focus, vis, n) + vis,
        0 <= scrolled(top, focus, vis, n) <= n - vis,
{
}

/// There are never more sections visible than there are, nor none.
pub proof fn law_some_sections_are_visible(m: Metrics, area: Rect, n: int)
    requires
        n > 0,
    ensures
        1 <= visible_sections(m, area, n) <= n,
{
}

/// The cursor's row of the grid is visible after scrolling.
pub proof fn law_cursor_row_is_visible(top: int, row: int, rows: int)
    requires
        0 <= top,
        0 <= row,
        1 <= rows,
    ensures
        scrolled_rows(top, row, rows) <= row < scrolled_rows(top, row, rows) + rows,
        0 <= scrolled_rows(top, row, rows),
{
}

/// What is found for a section's title is that title.
pub proof fn law_titles_are_where_they_are_sought(ss: Seq<Section>, topn: usize, gi: int)
    requires
        0 <= gi < ss.len(),
    ensures
        focus_upto(ss, topn, gi).len() < focus_list(ss, topn).len(),
        focus_list(ss, topn)[focus_upto(ss, topn, gi).len() as int] == OFocus::Title(gi as usize),
{
    lemma_focus_grows(ss, topn, gi + 1, ss.len() as int);
    let at = focus_upto(ss, topn, gi).len() as int;
    assert(focus_upto(ss, topn, gi + 1)[at] == OFocus::Title(gi as usize));
}

/// The card at a place of a section's row comes that many places behind its title.
pub proof fn law_cards_follow_their_title(ss: Seq<Section>, topn: usize, gi: int, j: int)
    requires
        0 <= gi < ss.len(),
        0 <= j < row_len(ss[gi], topn),
    ensures
        focus_upto(ss, topn, gi).len() + 1 + j < focus_list(ss, topn).len(),
        focus_list(ss, topn)[focus_upto(ss, topn, gi).len() + 1 + j] == OFocus::Item(
            gi as usize,
            j as usize,
        ),
{
    lemma_focus_grows(ss, topn, gi + 1, ss.len() as int);
    let at = focus_upto(ss, topn, gi).len() + 1 + j;
    assert(focus_upto(ss, topn, gi + 1)[at] == OFocus::Item(gi as usize, j as usize));
}

/// Going forward and back again within a list comes back.
pub proof fn law_back_undoes_forward(sel: int, step: int, n: int)
    requires
        0 <= sel,
        0 <= step,
        sel + step < n,
    ensures
        backward(forward(sel, step, n), step) == sel,
{
}

/// This part of the screen is the one of the cell `q` of the grid.
spec fn is_cell(r: Rect, head: u16, g: Grid, q: int) -> bool {
    &&& 0 <= q
    &&& r.x == (q % (g.cols as int)) * g.card_w
    &&& r.y == head + (q / (g.cols as int)) * g.card_h
    &&& r.width <= g.card_w
    &&& r.height <= g.card_h
}

/// The parts of the grid belong to cells, in their order.
spec fn in_cells(cells: Seq<(Rect, usize)>, qs: Seq<int>, head: u16, g: Grid, k: int) -> bool {
    &&& qs.len() == cells.len()
    &&& forall|i: int|
        0 <= i < cells.len() ==> is_cell((#[trigger] cells[i]).0, head, g, qs[i]) && qs[i] < k
    &&& forall|i: int, j: int| 0 <= i < j < qs.len() ==> #[trigger] qs[i] < #[trigger] qs[j]
}

proof fn lemma_cells(area: Rect, head: u16, g: Grid, top: int, n: int, k: int) -> (qs: Seq<int>)
    requires
        1 <= g.cols,
        0 <= k,
    ensures
        in_cells(grid_cells(area, head, g, top, n, k), qs, head, g, k),
    decreases k,
{
    if k <= 0 {
        Seq::empty()
    } else {
        let init = grid_cells(area, head, g, top, n, k - 1);
        let all = grid_cells(area, head, g, top, n, k);
        let qs = lemma_cells(area, head, g, top, n, k - 1);
        let q = k - 1;
        let r = q / (g.cols as int);
        let c = q % (g.cols as int);
        assert(0 <= r && 0 <= c) by (nonlinear_arith)
            requires
                0 <= q,
                1 <= g.cols,
                r == q / (g.cols as int),
                c == q % (g.cols as int),
        ;
        assert(0 <= c * g.card_w && 0 <= r * g.card_h) by (nonlinear_arith)
            requires
                0 <= r,
                0 <= c,
                0 <= g.card_w,
                0 <= g.card_h,
        ;
        if all.len() == init.len() {
            assert(all == init);
            assert(in_cells(all, qs, head, g, k));
            qs
        } else {
            let more = qs.push(q);
            assert forall|i: int| 0 <= i < all.len() implies is_cell(
                (#[trigger] all[i]).0,
                head,
                g,
                more[i],
            ) && more[i] < k by {
                if i < init.len() {
                    assert(all[i] == init[i]);
                }
            }
            assert forall|i: int, j: int| 0 <= i < j < more.len() implies #[trigger] more[i]
                < #[trigger] more[j] by {
                assert(more[i] == qs[i]);
                if j < qs.len() {
                    assert(more[j] == qs[j]);
                } else {
                    assert(is_cell(init[i].0, head, g, qs[i]) && qs[i] < k - 1);
                }
            }
            more
        }
    }
}

/// Two numbers whose multiples begin intervals that share a place are the same.
proof fn lemma_same_interval(a: int, b: int, w: int, p: int)
    requires
        a * w <= p < a * w + w,
        b * w <= p < b * w + w,
    ensures
        a == b,
{
    if a < b {
        assert((a + 1) * w <= b * w) by (nonlinear_arith)
            requires
                a + 1 <= b,
                w > 0,
        ;
        assert((a + 1) * w == a * w + w) by (nonlinear_arith);
    } else if b < a {
        assert((b + 1) * w <= a * w) by (nonlinear_arith)
            requires
                b + 1 <= a,
                w > 0,
        ;
        assert((b + 1) * w == b * w + w) by (nonlinear_arith);
    }
}

proof fn lemma_one_cell(a: Rect, b: Rect, head: u16, g: Grid, qa: int, qb: int, col: u16, row: u16)
    requires
        1 <= g.cols,
        is_cell(a, head, g, qa),
        is_cell(b, head, g, qb),
        covers(a, col, row),
        covers(b, col, row),
    ensures
        qa == qb,
{
    let cols = g.cols as int;
    lemma_same_interval(qa % cols, qb % cols, g.card_w as int, col as int);
    lemma_same_interval(qa / cols, qb / cols, g.card_h as int, row - head);
    assert(qa == cols * (qa / cols) + qa % cols) by (nonlinear_arith)
        requires
            cols >= 1,
    ;
    assert(qb == cols * (qb / cols) + qb % cols) by (nonlinear_arith)
        requires
            cols >= 1,
    ;
}

/// What is hit is the first part of the screen that a place lies in.
pub proof fn lemma_first_hit(rects: Seq<(Rect, usize)>, col: u16, row: u16, from: int, at: int)
    requires
        0 <= from <= at < rects.len(),
        covers(rects[at].0, col, row),
        forall|k: int| from <= k < at ==> !covers((#[trigger] rects[k]).0, col, row),
    ensures
        hit_from(rects, col, row, from) == Some(rects[at].1),
    decreases at - from,
{
    if from < at {
        assert(!covers(rects[from].0, col, row));
        lemma_first_hit(rects, col, row, from + 1, at);
    }
}

/// A click on a card of the grid finds that card: no two cards share a place.
pub proof fn law_clicks_find_their_card(
    area: Rect,
    head: u16,
    g: Grid,
    top: int,
    n: int,
    k: int,
    i: int,
    column: u16,
    row: u16,
)
    requires
        1 <= g.cols,
        0 <= k,
        0 <= i < grid_cells(area, head, g, top, n, k).len(),
        covers(grid_cells(area, head, g, top, n, k)[i].0, column, row),
    ensures
        hit_from(grid_cells(area, head, g, top, n, k), column, row, 0) == Some(
            grid_cells(area, head, g, top, n, k)[i].1,
        ),
{
    let cells = grid_cells(area, head, g, top, n, k);
    let qs = lemma_cells(area, head, g, top, n, k);
    assert forall|j: int| 0 <= j < i implies !covers((#[trigger] cells[j]).0, column, row) by {
        if covers(cells[j].0, column, row) {
            assert(is_cell(cells[j].0, head, g, qs[j]) && is_cell(cells[i].0, head, g, qs[i]));
            lemma_one_cell(cells[j].0, cells[i].0, head, g, qs[j], qs[i], column, row);
            assert(qs[j] < qs[i]);
        }
    }
    lemma_first_hit(cells, column, row, 0, i);
}

// ---- keys and the mouse ----------------------------------------------------------------------------------------------

/// In the overview the arrows and the tabulator move the cursor by one, forward and back,
/// within the list; escape and "q" quit; other letters do nothing.
pub proof fn law_keys_of_the_overview(nav: Nav, ss: Seq<Section>, c: char)
    requires
        nav.wf(ss),
    ensures
        ({
            let n = nav.ofocus@.len() as int;
            let right = nav.after_overview_key(Key::Right, ss);
            let left = nav.after_overview_key(Key::Left, ss);
            &&& nav.osel + 1 < n ==> right.0.osel == nav.osel + 1
            &&& nav.osel + 1 == n ==> right.0.osel == nav.osel
            &&& nav.osel > 0 ==> left.0.osel == nav.osel - 1
            &&& nav.osel == 0 ==> left.0.osel == 0
            &&& right.1 == Action::Stay && left.1 == Action::Stay
            &&& right.0 == (Nav { osel: right.0.osel, ..nav })
            &&& left.0 == (Nav { osel: left.0.osel, ..nav })
            &&& nav.after_overview_key(Key::Down, ss) == right
            &&& nav.after_overview_key(Key::Tab, ss) == right
            &&& nav.after_overview_key(Key::Up, ss) == left
            &&& nav.after_overview_key(Key::Esc, ss) == (nav, Action::Quit)
            &&& nav.after_overview_key(Key::Char('q'), ss) == (nav, Action::Quit)
            &&& c != 'q' ==> nav.after_overview_key(Key::Char(c), ss) == (nav, Action::Stay)
            &&& nav.after_overview_key(Key::Other, ss) == (nav, Action::Stay)
            &&& nav.after_overview_key(Key::Backspace, ss) == (nav, Action::Stay)
        }),
{
    let n = nav.ofocus.len();
    assert(n == nav.ofocus@.len());
}

/// Enter opens the section whose title the cursor is on, at its start, or launches the item
/// whose card it is on; a click does the same with what it hits, and the wheel moves the
/// cursor as the arrows do.
pub proof fn law_activating(nav: Nav, ss: Seq<Section>, g: usize, j: usize, column: u16, row: u16)
    requires
        nav.wf(ss),
    ensures
        ({
            let enter = nav.after_overview_key(Key::Enter, ss);
            &&& nav.ofocus@[nav.osel as int] == OFocus::Title(g) ==> enter == (
                Nav { mode: Mode::Section, section: g, sel: 0, top: 0, ..nav },
                Action::Stay,
            )
            &&& nav.ofocus@[nav.osel as int] == OFocus::Item(g, j) ==> enter.0 == nav && enter.1
                == Action::Launch(ss[g as int].1[j as int] as usize)
            &&& hit_from(nav.rects@, column, row, 0) matches Some(i) ==> nav.after_overview_mouse(
                Mouse::Click { column, row },
                ss,
            ) == (Nav { osel: i, ..nav }).after_overview_key(Key::Enter, ss)
            &&& hit_from(nav.rects@, column, row, 0) is None ==> nav.after_overview_mouse(
                Mouse::Click { column, row },
                ss,
            ) == (nav, Action::Stay)
            &&& nav.after_overview_mouse(Mouse::ScrollUp, ss) == nav.after_overview_key(Key::Up, ss)
            &&& nav.after_overview_mouse(Mouse::ScrollDown, ss) == nav.after_overview_key(
                Key::Down,
                ss,
            )
            &&& nav.after_overview_mouse(Mouse::Other, ss) == (nav, Action::Stay)
        }),
{
}

/// In an open section the arrows move by one card to the side and by one row up and down,
/// within the cards; enter launches the card that the cursor is on; escape goes back to the
/// overview, and "q" quits.
pub proof fn law_keys_of_a_section(nav: Nav, items: Seq<usize>, term_cols: u16, c: char)
    requires
        nav.sel < items.len(),
        nav.metrics.target_cw > 0,
    ensures
        ({
            let n = items.len() as int;
            let wide = if term_cols < nav.metrics.target_cw {
                1int
            } else {
                term_cols as int / nav.metrics.target_cw as int
            };
            let key = |k: Key| nav.after_section_key(k, items, term_cols);
            let to = |k: int| (Nav { sel: k as usize, ..nav }, Action::Stay);
            &&& nav.sel + 1 < n ==> key(Key::Right) == to(nav.sel + 1)
            &&& nav.sel + 1 == n ==> key(Key::Right) == to(nav.sel as int)
            &&& nav.sel > 0 ==> key(Key::Left) == to(nav.sel - 1)
            &&& nav.sel == 0 ==> key(Key::Left) == to(0)
            &&& nav.sel + wide < n ==> key(Key::Down) == to(nav.sel + wide)
            &&& nav.sel + wide >= n ==> key(Key::Down) == to(n - 1)
            &&& nav.sel >= wide ==> key(Key::Up) == to(nav.sel - wide)
            &&& nav.sel < wide ==> key(Key::Up) == to(0)
            &&& key(Key::Enter) == (nav, Action::Launch(items[nav.sel as int]))
            &&& key(Key::Esc) == (Nav { mode: Mode::Overview, ..nav }, Action::Stay)
            &&& key(Key::Char('q')) == (nav, Action::Quit)
            &&& c != 'q' ==> key(Key::Char(c)) == (nav, Action::Stay)
            &&& nav.after_section_mouse(Mouse::ScrollDown, items, term_cols) == key(Key::Down)
            &&& nav.after_section_mouse(Mouse::ScrollUp, items, term_cols) == key(Key::Up)
        }),
{
    let w = term_cols as int;
    let t = nav.metrics.target_cw as int;
    if w < t {
        assert(w / t == 0) by (nonlinear_arith)
            requires
                0 <= w < t,
        ;
    } else {
        assert(w / t >= 1) by (nonlinear_arith)
            requires
                0 < t <= w,
        ;
    }
}

/// A click on a card of an open section launches its item.
pub proof fn law_clicks_launch(nav: Nav, items: Seq<usize>, term_cols: u16, column: u16, row: u16)
    ensures
        ({
            let r = nav.after_section_mouse(Mouse::Click { column, row }, items, term_cols);
            &&& hit_from(nav.grid_rects@, column, row, 0) matches Some(i) ==> r == (
                nav,
                Action::Launch(items[i as int]),
            )
            &&& hit_from(nav.grid_rects@, column, row, 0) is None ==> r == (nav, Action::Stay)
        }),
{
}

/// What is hit is the first part of the screen that the place lies in.
pub proof fn law_hits(rects: Seq<(Rect, usize)>, col: u16, row: u16, from: int)
    requires
        0 <= from <= rects.len(),
    ensures
        match hit_from(rects, col, row, from) {
            Some(v) => exists|i: int|
                from <= i < rects.len() && (#[trigger] rects[i]).1 == v && rects[i].0.x <= col && col
                    < rects[i].0.x + rects[i].0.width && rects[i].0.y <= row && row < rects[i].0.y
                    + rects[i].0.height,
            None => forall|i: int|
                from <= i < rects.len() ==> !(({
                    let r = (#[trigger] rects[i]).0;
                    r.x <= col && col < r.x + r.width && r.y <= row && row < r.y + r.height
                })),
        },
    decreases rects.len() - from,
{
    if from < rects.len() {
        if covers(rects[from].0, col, row) {
            assert(rects[from].1 == hit_from(rects, col, row, from)->0);
        } else {
            law_hits(rects, col, row, from + 1);
            if let Some(v) = hit_from(rects, col, row, from + 1) {
                let i = choose|i: int|
                    from + 1 <= i < rects.len() && (#[trigger] rects[i]).1 == v && rects[i].0.x <= col
                        && col < rects[i].0.x + rects[i].0.width && rects[i].0.y <= row && row
                        < rects[i].0.y + rects[i].0.height;
                assert(rects[i].1 == v);
            }
        }
    }
}

/// The cursor goes through every section: its title and then so many of its items, at most as
/// many as a row has.
pub proof fn law_the_cursor_goes_everywhere(ss: Seq<Section>, topn: usize, n: int)
    requires
        0 <= n < ss.len(),
    ensures
        ({
            let cards = if topn <= ss[n].1.len() {
                topn as int
            } else {
                ss[n].1.len() as int
            };
            &&& focus_upto(ss, topn, n + 1).len() == focus_upto(ss, topn, n).len() + 1 + cards
            &&& focus_upto(ss, topn, 0).len() == 0
        }),
{
}

/// As many sections are shown as have room, each with its full height, and never more than
/// there are; the cards share the width.
pub proof fn law_sizes_of_the_overview(o: Overview, m: Metrics, topn: usize, area: Rect, n: int)
    requires
        m.wf(),
        topn > 0,
        n > 0,
        is_overview(o, m, topn, area, n),
        area.height > 0,
    ensures
        1 <= o.visible <= n,
        o.visible > 1 ==> o.visible * m.ov_section <= area.height - 1,
        o.visible < n ==> (o.visible + 1) * m.ov_section > area.height - 1,
        o.visible * o.section_h <= area.height - 1,
        area.width >= topn ==> topn * o.card_w <= area.width,
        o.card_h >= 1 && o.card_w >= 1,
        o.section_h > m.title_h + 1 ==> o.card_h == o.section_h - m.title_h - 1,
{
    let body = area.height - 1;
    let ov = m.ov_section as int;
    let fit = body / ov;
    let vis = o.visible as int;
    assert(fit * ov <= body && (fit + 1) * ov > body) by (nonlinear_arith)
        requires
            fit == body / ov,
            ov > 0,
            body >= 0,
    ;
    if vis > 1 {
        assert(vis * ov <= fit * ov) by (nonlinear_arith)
            requires
                vis <= fit,
                ov > 0,
        ;
    }
    if vis < n {
        assert((vis + 1) * ov >= (fit + 1) * ov) by (nonlinear_arith)
            requires
                vis >= fit,
                ov > 0,
        ;
    }
    let h = body / vis;
    assert(vis * h <= body) by (nonlinear_arith)
        requires
            h == body / vis,
            vis > 0,
            body >= 0,
    ;
    let w = area.width as int;
    let t = topn as int;
    if w >= t {
        let cw = w / t;
        assert(t * cw <= w && cw >= 1) by (nonlinear_arith)
            requires
                cw == w / t,
                0 < t <= w,
        ;
    }
}

/// The columns of the grid share the width of the screen, each as wide as a card should be at
/// least, and the rows its height.
pub proof fn law_sizes_of_the_grid(g: Grid, m: Metrics, target_ch: u16, area: Rect, head: u16)
    requires
        m.wf(),
        target_ch > 0,
        is_grid(g, m, target_ch, area, head),
        area.width >= m.target_cw,
        area.height >= head + target_ch,
    ensures
        g.cols * m.target_cw <= area.width,
        (g.cols + 1) * m.target_cw > area.width,
        g.cols * g.card_w <= area.width,
        g.card_w >= m.target_cw,
        g.rows * target_ch <= area.height - head,
        (g.rows + 1) * target_ch > area.height - head,
        g.rows * g.card_h <= area.height - head,
        g.card_h >= target_ch,
{
    lemma_shared(area.width as int, m.target_cw as int);
    lemma_shared(area.height - head, target_ch as int);
}

proof fn lemma_shared(whole: int, least: int)
    requires
        0 < least <= whole,
    ensures
        ({
            let n = whole / least;
            let each = whole / n;
            &&& n >= 1
            &&& n * least <= whole
            &&& (n + 1) * least > whole
            &&& n * each <= whole
            &&& each >= least
        }),
{
    let n = whole / least;
    assert(n >= 1 && n * least <= whole && (n + 1) * least > whole) by (nonlinear_arith)
        requires
            n == whole / least,
            0 < least <= whole,
    ;
    let each = whole / n;
    assert(n * each <= whole && each >= least) by (nonlinear_arith)
        requires
            each == whole / n,
            n >= 1,
            n * least <= whole,
    ;
}

/// A cell of the grid shows the item of its row and column, counted from the first visible
/// row, at its place on the screen, cut where the screen ends; cells without an item, and
/// those that would begin off the screen, show none.
pub proof fn law_cells_of_the_grid(area: Rect, head: u16, g: Grid, top: int, n: int, r: int, c: int)
    requires
        1 <= g.cols,
        0 <= r,
        0 <= c < g.cols,
    ensures
        ({
            let k = r * g.cols + c;
            let before = grid_cells(area, head, g, top, n, k);
            let after = grid_cells(area, head, g, top, n, k + 1);
            let item = (top + r) * g.cols + c;
            let x = c * g.card_w;
            let y = head + r * g.card_h;
            if item < n && x < area.width && y < area.height {
                after == before.push(
                    (
                        Rect {
                            x: x as u16,
                            y: y as u16,
                            width: (if x + g.card_w <= area.width {
                                g.card_w as int
                            } else {
                                area.width - x
                            }) as u16,
                            height: (if y + g.card_h <= area.height {
                                g.card_h as int
                            } else {
                                area.height - y
                            }) as u16,
                        },
                        item as usize,
                    ),
                )
            } else {
                after == before
            }
        }),
{
    let cols = g.cols as int;
    let k = r * cols + c;
    assert(k >= 0) by (nonlinear_arith)
        requires
            k == r * cols + c,
            0 <= r,
            0 <= c,
            1 <= cols,
    ;
    assert(k / cols == r && k % cols == c) by (nonlinear_arith)
        requires
            k == r * cols + c,
            0 <= c < cols,
            0 <= r,
    ;
}

/// In a section's row the cards stand side by side below its title, as many as begin on the
/// screen.
pub proof fn law_cards_of_a_row(area: Rect, o: Overview, y: int, section: int, title_focus: int, k: int)
    requires
        0 <= k,
    ensures
        ({
            let before = card_slots(area, o, y, section, title_focus, k);
            let after = card_slots(area, o, y, section, title_focus, k + 1);
            let x = k * o.card_w;
            if x < area.width {
                &&& after.len() == before.len() + 1
                &&& after.drop_last() == before
                &&& after.last().item == Some(k as usize)
                &&& after.last().section == section as usize
                &&& after.last().focus == (title_focus + 1 + k) as usize
                &&& after.last().rect.x == x
                &&& after.last().rect.y == y as u16
                &&& x + o.card_w <= area.width ==> after.last().rect.width == o.card_w
            } else {
                after == before
            }
        }),
{
    let before = card_slots(area, o, y, section, title_focus, k);
    let x = k * o.card_w;
    assert(x >= 0) by (nonlinear_arith)
        requires
            x == k * o.card_w,
            0 <= k,
            0 <= o.card_w,
    ;
    if x < area.width {
        assert(card_slots(area, o, y, section, title_focus, k + 1).drop_last() =~= before);
    }
}

/// The sections of the overview stand below each other from the second row of the screen on,
/// each title across the screen, and its cards under it where there is room.
pub proof fn law_sections_of_the_overview(
    area: Rect,
    m: Metrics,
    topn: usize,
    o: Overview,
    ss: Seq<Section>,
    gi: int,
    vi: int,
)
    requires
        0 <= gi < ss.len(),
        0 <= vi,
        1 + vi * o.section_h <= u16::MAX,
        0 <= vi * o.section_h,
        gi <= usize::MAX,
    ensures
        ({
            let s = section_slots(area, m, topn, o, ss, gi, vi);
            let base = 1 + vi * o.section_h;
            let y = base + m.title_h;
            let title = focus_upto(ss, topn, gi).len() as int;
            &&& s.len() >= 1
            &&& s[0].item is None
            &&& s[0].section == gi
            &&& s[0].rect.x == 0 && s[0].rect.y == base && s[0].rect.width == area.width
            &&& s[0].focus == title as usize
            &&& y < area.height ==> s.skip(1) == card_slots(
                area,
                o,
                y,
                gi,
                title,
                if topn <= ss[gi].1.len() {
                    topn as int
                } else {
                    ss[gi].1.len() as int
                },
            )
            &&& y >= area.height ==> s.len() == 1
        }),
{
    let s = section_slots(area, m, topn, o, ss, gi, vi);
    let base = 1 + vi * o.section_h;
    let y = base + m.title_h;
    let title = focus_upto(ss, topn, gi).len() as int;
    if y < area.height {
        assert(s.skip(1) =~= card_slots(area, o, y, gi, title, row_len(ss[gi], topn)));
    }
}

} // verus!
