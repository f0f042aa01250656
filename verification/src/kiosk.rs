//! The game browser: what its screens say, where the covers of its games come from, and
//! how a game is fetched and started.

use crate::catalogue::{canon_of, Game, Row};
use crate::cover::{cover_cache, cover_url, ia_cover_cache, ia_cover_url, safe_name};
use crate::grid::{max_int, Metrics};
use crate::keyed::{entries, get, lookup, Entries};
use crate::layout::{spaced, spaced_upper, uppered};
use crate::paths::inside;
use crate::run::{add_text, add_texts};
use crate::text::{append, decimal, decimal_text, same, texts};
use crate::titles::game_title_of;
use crate::url::quote_of;
use vstd::prelude::*;

verus! {

// ---- the screens -----------------------------------------------------------------------------------

/// The height that a card of the grid aims at.
pub const CARD_HEIGHT: u16 = 16;

/// The sizes that the kiosk is laid out with.
pub open spec fn kiosk_sizes() -> Metrics {
    Metrics { ov_section: 17, title_h: 3, target_cw: 14 }
}

/// How many cards of a width a row has; one in any case.
pub open spec fn cards_in(width: u16, target_cw: u16) -> int {
    max_int(1, width as int / (target_cw as int))
}

/// The sizes of the browser of games.
pub fn kiosk_metrics() -> (m: Metrics)
    ensures
        m == kiosk_sizes(),
        m == (Metrics { ov_section: 17, title_h: 3, target_cw: 14 }),
        m.wf(),
{
    Metrics { ov_section: 17, title_h: 3, target_cw: 14 }
}

/// How many cards the row of a section has on a screen of this width.
pub fn cards_per_row(width: u16, target_cw: u16) -> (r: usize)
    requires
        target_cw > 0,
    ensures
        r == max_int(1, width as int / (target_cw as int)),
        r == cards_in(width, target_cw),
{
    let n: u16 = width / target_cw;
    if n >= 1 {
        n as usize
    } else {
        1
    }
}

/// The first line of the overview.
pub fn overview_header(sections: usize) -> (r: String)
    ensures
        r@ == "C64 kiosk  "@ + decimal(sections as nat)
            + " genres \u{00b7} click a cover to play \u{00b7} click a genre to expand \u{00b7} esc quit"@,
{
    let a = append("C64 kiosk  ", decimal_text(sections as u64).as_str());
    append(
        a.as_str(),
        " genres \u{00b7} click a cover to play \u{00b7} click a genre to expand \u{00b7} esc quit",
    )
}

/// The bar of a section in the overview.
pub fn section_bar(name: &str, count: usize, hint: &str) -> (r: String)
    ensures
        r@ == "  "@ + spaced(uppered(name@)) + " ("@ + decimal(count as nat) + ")   "@ + hint@,
{
    let mut s = "  ".to_string();
    s.append(spaced_upper(name).as_str());
    s.append(" (");
    s.append(decimal_text(count as u64).as_str());
    s.append(")   ");
    s.append(hint);
    s
}

/// The title of an open section.
pub fn section_title(name: &str, count: usize) -> (r: String)
    ensures
        r@ == "  "@ + spaced(uppered(name@)) + "    ("@ + decimal(count as nat)
            + " games)   click a cover to play \u{00b7} esc back \u{00b7} q quit"@,
{
    let mut s = "  ".to_string();
    s.append(spaced_upper(name).as_str());
    s.append("    (");
    s.append(decimal_text(count as u64).as_str());
    s.append(" games)   click a cover to play \u{00b7} esc back \u{00b7} q quit");
    s
}

/// The badges of a game's cover: it is played with a joystick, and it has the best rating.
#[derive(Clone, Copy, PartialEq, Eq, Structural, Debug)]
pub struct Badges {
    pub joystick: bool,
    pub top_rated: bool,
}

/// A text is among others.
fn is_among(all: &Vec<String>, t: &str) -> (r: bool)
    ensures
        r == texts(all@).contains(t@),
{
    let mut i: usize = 0;
    while i < all.len()
        invariant
            i <= all@.len(),
            forall|k: int| 0 <= k < i ==> texts(all@)[k] != t@,
        decreases all@.len() - i,
    {
        assert(texts(all@)[i as int] == all@[i as int]@);
        if same(all[i].as_str(), t) {
            return true;
        }
        i += 1;
    }
    assert(texts(all@).len() == all@.len());
    false
}

/// The badges of a game.
pub open spec fn badges_of(g: Game, joystick: Seq<Seq<char>>, top_rated: Seq<Seq<char>>) -> Badges {
    Badges { joystick: joystick.contains(g.canon()), top_rated: top_rated.contains(g.canon()) }
}

/// The badges of a game's cover.
pub fn badges(row: &Row, joystick: &Vec<String>, top_rated: &Vec<String>) -> (r: Badges)
    ensures
        r == badges_of(row@, texts(joystick@), texts(top_rated@)),
        r.joystick == texts(joystick@).contains(row@.canon()),
        r.top_rated == texts(top_rated@).contains(row@.canon()),
{
    let canon = canon_of(row);
    Badges {
        joystick: is_among(joystick, canon.as_str()),
        top_rated: is_among(top_rated, canon.as_str()),
    }
}

// ---- covers -------------------------------------------------------------------------------------------

/// Where a cover comes from, and where it is kept.
#[derive(Debug)]
pub struct CoverSource {
    pub cache: String,
    pub url: String,
    /// Whether what comes may be an icon that stands in for a picture.
    pub may_be_icon: bool,
}

/// A source of a cover as texts.
#[verifier::ext_equal]
pub struct CoverPlace {
    pub cache: Seq<char>,
    pub url: Seq<char>,
    pub may_be_icon: bool,
}

impl View for CoverSource {
    type V = CoverPlace;

    open spec fn view(&self) -> CoverPlace {
        CoverPlace { cache: self.cache@, url: self.url@, may_be_icon: self.may_be_icon }
    }
}

pub open spec fn sources_view(v: Seq<CoverSource>) -> Seq<CoverPlace> {
    v.map_values(|s: CoverSource| s@)
}

/// The sources of a game's cover, in the order in which they are tried: the picture set,
/// where the index names a file, and then the archive's own picture of the item.
pub open spec fn cover_places(g: Game, index: Entries, dir: Seq<char>) -> Seq<CoverPlace> {
    (match lookup(index, g.canon()) {
        Some(file) => seq![
            CoverPlace {
                cache: inside(dir, g.canon() + ".png"@),
                url: "https://raw.githubusercontent.com/libretro-thumbnails/Commodore_-_64/master/Named_Boxarts/"@
                    + quote_of(file),
                may_be_icon: false,
            },
        ],
        None => Seq::empty(),
    }) + (if g.ident.len() > 0 {
        seq![
            CoverPlace {
                cache: inside(dir, "ia_"@ + safe_name(g.ident) + ".jpg"@),
                url: "https://archive.org/services/img/"@ + g.ident,
                may_be_icon: true,
            },
        ]
    } else {
        Seq::empty()
    })
}

/// The sources of a game's cover.
pub fn cover_for(row: &Row, cidx: &Vec<(String, String)>, dir: &str) -> (r: Vec<CoverSource>)
    ensures
        sources_view(r@) == cover_places(row@, entries(cidx@), dir@),
{
    let canon = canon_of(row);
    let mut v: Vec<CoverSource> = Vec::new();
    match get(cidx, canon.as_str()) {
        Some(file) => {
            v.push(
                CoverSource {
                    cache: cover_cache(dir, canon.as_str()),
                    url: cover_url(file.as_str()),
                    may_be_icon: false,
                },
            );
        },
        None => {},
    }
    match ia_cover_cache(dir, row.ident.as_str()) {
        Some(cache) => {
            v.push(CoverSource { cache, url: ia_cover_url(row.ident.as_str()), may_be_icon: true });
        },
        None => {},
    }
    assert(sources_view(v@) =~= cover_places(row@, entries(cidx@), dir@));
    v
}

// ---- fetching and starting a game ------------------------------------------------------------------------

/// The arguments with which the program fetches a game that is not there: by the archive's
/// item where that is known, else by its title.
pub open spec fn fetch_words(g: Game) -> Seq<Seq<char>> {
    if g.ident.len() > 0 {
        seq!["disk"@, "--id"@, g.ident]
    } else {
        seq!["disk"@, "--source"@, "ia"@, g.query]
    }
}

pub fn fetch_args(row: &Row) -> (r: Vec<String>)
    ensures
        texts(r@) == fetch_words(row@),
{
    let mut v: Vec<String> = Vec::new();
    assert(texts(v@) =~= Seq::empty());
    add_text(&mut v, "disk");
    if !row.ident.as_str().is_empty() {
        add_text(&mut v, "--id");
        add_text(&mut v, row.ident.as_str());
    } else {
        add_text(&mut v, "--source");
        add_text(&mut v, "ia");
        add_text(&mut v, row.query.as_str());
    }
    assert(texts(v@) =~= fetch_words(row@));
    v
}

/// The arguments with which the program starts a game: the options, and then the game.
pub fn play_args(runopts: &Vec<String>, target: &str) -> (r: Vec<String>)
    ensures
        texts(r@) == texts(runopts@).push(target@),
{
    let mut v: Vec<String> = Vec::new();
    assert(texts(v@) =~= Seq::empty());
    add_texts(&mut v, runopts);
    assert(texts(v@) =~= texts(runopts@));
    add_text(&mut v, target);
    v
}

/// How to try again to fetch a game.
pub fn retry_text(row: &Row) -> (r: String)
    ensures
        r@ == (if row@.ident.len() == 0 {
            "Retry:  c64disk --source ia \""@ + row@.query + "\""@
        } else {
            "Retry:  c64disk --id "@ + row@.ident
        }),
{
    if row.ident.as_str().is_empty() {
        let a = append("Retry:  c64disk --source ia \"", row.query.as_str());
        append(a.as_str(), "\"")
    } else {
        append("Retry:  c64disk --id ", row.ident.as_str())
    }
}

/// What is said of a game that could not be fetched, and of one that did not start.
pub fn could_not(what: &str, title: &str) -> (r: String)
    ensures
        r@ == "Could not "@ + what@ + " "@ + title@,
{
    let a = append("Could not ", what);
    let b = append(a.as_str(), " ");
    append(b.as_str(), title)
}

// ---- laws -----------------------------------------------------------------------------------------------------------

/// The sizes of the kiosk: seventeen rows for a section, three of them for its title, and
/// cards that are fourteen columns wide, of which a row has as many as fit.
pub proof fn law_sizes_of_the_kiosk(width: u16)
    ensures
        kiosk_sizes().ov_section == 17,
        kiosk_sizes().title_h == 3,
        kiosk_sizes().target_cw == 14,
        width < 14 ==> cards_in(width, 14) == 1,
        width >= 14 ==> 14 * cards_in(width, 14) <= width < 14 * (cards_in(width, 14) + 1),
{
}

/// A game has the badge of a joystick when it is known to be played with one, and that of the
/// best rating when it is known to have it.
pub proof fn law_badges(g: Game, joystick: Seq<Seq<char>>, top_rated: Seq<Seq<char>>)
    ensures
        badges_of(g, joystick, top_rated).joystick <==> exists|i: int|
            0 <= i < joystick.len() && #[trigger] joystick[i] == game_title_of(g.query),
        badges_of(g, joystick, top_rated).top_rated <==> exists|i: int|
            0 <= i < top_rated.len() && #[trigger] top_rated[i] == game_title_of(g.query),
{
}

/// A cover comes from the set of pictures where the index has one of the game, and else, or
/// next, from the archive's own item; a game with neither has none.
pub proof fn law_covers_have_two_sources(g: Game, index: Entries, dir: Seq<char>)
    ensures
        ({
            let c = cover_places(g, index, dir);
            let listed = lookup(index, g.canon());
            let k = if listed is Some {
                1int
            } else {
                0
            };
            &&& c.len() == k + (if g.ident.len() > 0 {
                1int
            } else {
                0
            })
            &&& listed is Some ==> c[0].cache == inside(dir, g.canon() + ".png"@) && !c[0].may_be_icon
                && crate::text::ends(c[0].url, quote_of(listed->0))
            &&& g.ident.len() > 0 ==> c[k].may_be_icon && c[k].cache == inside(
                dir,
                "ia_"@ + safe_name(g.ident) + ".jpg"@,
            ) && c[k].url == "https://archive.org/services/img/"@ + g.ident
        }),
{
    if let Some(file) = lookup(index, g.canon()) {
        let c = cover_places(g, index, dir);
        let head = "https://raw.githubusercontent.com/libretro-thumbnails/Commodore_-_64/master/Named_Boxarts/"@;
        let url = head + quote_of(file);
        assert(c[0].url == url);
        assert(url.skip(url.len() - quote_of(file).len()) =~= quote_of(file));
    }
}

/// A game that is not there is fetched by its item of the archive, where that is known, else
/// by its title.
pub proof fn law_games_are_fetched(g: Game)
    ensures
        g.ident.len() > 0 ==> fetch_words(g) == seq!["disk"@, "--id"@, g.ident],
        g.ident.len() == 0 ==> fetch_words(g) == seq!["disk"@, "--source"@, "ia"@, g.query],
{
}

} // verus!
