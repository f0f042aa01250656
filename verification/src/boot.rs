//! The power-on screen: what a Commodore 64 shows while the browser is "loaded", at each
//! moment.

use crate::grid::{max_int, min_int, Rect};
use crate::layout::{to_uppercase, uppered};
use crate::run::add_text;
use crate::text::{append, chars_of, string_range, texts};
use vstd::prelude::*;

verus! {

/// The part of a text that is typed after some time, at so long for a character.
pub open spec fn typed(s: Seq<char>, elapsed: int, per_char: int) -> Seq<char> {
    s.take(min_int(s.len() as int, elapsed / max_int(1, per_char)))
}

pub fn typed_prefix(s: &str, elapsed: u64, per_char: u64) -> (r: String)
    ensures
        r@ == typed(s@, elapsed as int, per_char as int),
{
    let v = chars_of(s);
    let step: u64 = if per_char >= 1 {
        per_char
    } else {
        1
    };
    let n: u64 = elapsed / step;
    let len: usize = v.len();
    let end: usize = if n >= len as u64 {
        len
    } else {
        n as usize
    };
    let r = string_range(&v, 0, end);
    assert(r@ =~= s@.take(end as int));
    r
}

/// A part of the screen inside another, so far from its sides.
pub open spec fn shrunk(a: Rect, dx: int, dy: int) -> Rect {
    Rect {
        x: (a.x + min_int(dx, a.width as int / 2)) as u16,
        y: (a.y + min_int(dy, a.height as int / 2)) as u16,
        width: max_int(0, a.width - 2 * dx) as u16,
        height: max_int(0, a.height - 2 * dy) as u16,
    }
}

pub fn shrink(a: Rect, dx: u16, dy: u16) -> (r: Rect)
    requires
        a.x + a.width <= u16::MAX,
        a.y + a.height <= u16::MAX,
        dx <= u16::MAX / 2,
        dy <= u16::MAX / 2,
    ensures
        r == shrunk(a, dx as int, dy as int),
{
    let mx: u16 = if dx <= a.width / 2 {
        dx
    } else {
        a.width / 2
    };
    let my: u16 = if dy <= a.height / 2 {
        dy
    } else {
        a.height / 2
    };
    Rect {
        x: a.x + mx,
        y: a.y + my,
        width: if a.width > dx * 2 {
            a.width - dx * 2
        } else {
            0
        },
        height: if a.height > dy * 2 {
            a.height - dy * 2
        } else {
            0
        },
    }
}

/// What is typed to load the browser, and to start it.
pub open spec fn load_command() -> Seq<char> {
    "LOAD\"BREADBIN\",8,1"@
}

pub open spec fn run_command() -> Seq<char> {
    "RUN"@
}

/// How long a character takes to type, in milliseconds, as all times are.
pub const PER_CHAR: u64 = 45;

/// When the typing begins.
pub const TYPE_START: u64 = 650;

/// When the command is entered.
pub const CMD_DONE: u64 = 1460;

/// When the loading begins.
pub const LOADING_AT: u64 = 1760;

/// When the typing of what starts the browser begins.
pub const RUN_AT: u64 = 2510;

/// When that is entered.
pub const RUN_DONE: u64 = 2645;

/// When the screen makes way for the browser.
pub const FINISH: u64 = 3095;

/// The cursor at a moment: a block that comes and goes.
pub open spec fn cursor(t: int, period: int) -> Seq<char> {
    if (t / period) % 2 == 0 {
        "\u{2588}"@
    } else {
        " "@
    }
}

fn cursor_text(t: u64, period: u64) -> (r: &'static str)
    requires
        period > 0,
    ensures
        r@ == cursor(t as int, period as int),
{
    if (t / period) % 2 == 0 {
        "\u{2588}"
    } else {
        " "
    }
}

/// The lines that are always there.
pub open spec fn banner() -> Seq<Seq<char>> {
    seq![
        ""@,
        "    **** COMMODORE 64 BASIC V2 ****"@,
        ""@,
        " 64K RAM SYSTEM  38911 BASIC BYTES FREE"@,
        ""@,
        "READY."@,
    ]
}

/// What the browser is started with, as far as it is typed.
pub open spec fn run_lines(t: int) -> Seq<Seq<char>> {
    if t < RUN_AT {
        seq![cursor(t, 400)]
    } else if t < RUN_DONE {
        seq![typed(run_command(), t - RUN_AT, PER_CHAR as int) + cursor(t, 400)]
    } else {
        seq![typed(run_command(), t - RUN_AT, PER_CHAR as int)]
    }
}

/// The lines at a moment before the end.
pub open spec fn boot_lines_at(t: int) -> Seq<Seq<char>> {
    banner() + (if t < TYPE_START {
        seq![cursor(t, 400)]
    } else if t < CMD_DONE {
        seq![typed(load_command(), t - TYPE_START, PER_CHAR as int) + cursor(t, 400)]
    } else {
        seq![typed(load_command(), t - TYPE_START, PER_CHAR as int)] + (if t < LOADING_AT {
            Seq::empty()
        } else {
            seq![""@, "SEARCHING FOR BREADBIN"@, "LOADING"@, "READY."@] + run_lines(t)
        })
    })
}

/// The lines of the screen so many milliseconds after power-on; `None` when it is over.
pub fn boot_lines(t: u64) -> (r: Option<Vec<String>>)
    ensures
        match r {
            Some(v) => t < FINISH && texts(v@) == boot_lines_at(t as int),
            None => t >= FINISH,
        },
{
    if t >= FINISH {
        return None;
    }
    let cur = cursor_text(t, 400);
    let mut v: Vec<String> = Vec::new();
    assert(texts(v@) =~= Seq::empty());
    add_text(&mut v, "");
    add_text(&mut v, "    **** COMMODORE 64 BASIC V2 ****");
    add_text(&mut v, "");
    add_text(&mut v, " 64K RAM SYSTEM  38911 BASIC BYTES FREE");
    add_text(&mut v, "");
    add_text(&mut v, "READY.");
    assert(texts(v@) =~= banner());
    if t < TYPE_START {
        add_text(&mut v, cur);
    } else {
        let cmd = typed_prefix("LOAD\"BREADBIN\",8,1", t - TYPE_START, PER_CHAR);
        if t < CMD_DONE {
            add_text(&mut v, append(cmd.as_str(), cur).as_str());
        } else {
            add_text(&mut v, cmd.as_str());
            if t >= LOADING_AT {
                add_text(&mut v, "");
                add_text(&mut v, "SEARCHING FOR BREADBIN");
                add_text(&mut v, "LOADING");
                add_text(&mut v, "READY.");
                if t < RUN_AT {
                    add_text(&mut v, cur);
                } else {
                    let run = typed_prefix("RUN", t - RUN_AT, PER_CHAR);
                    if t < RUN_DONE {
                        add_text(&mut v, append(run.as_str(), cur).as_str());
                    } else {
                        add_text(&mut v, run.as_str());
                    }
                }
            }
        }
    }
    assert(texts(v@) =~= boot_lines_at(t as int));
    Some(v)
}

// ---- loading a game -----------------------------------------------------------------------------------

/// The loading screen stays for this long at least.
pub const LOADING_MIN: u64 = 700;

/// The lines of the loading screen of a game.
pub open spec fn loading_lines_at(title: Seq<char>, t: int) -> Seq<Seq<char>> {
    seq![""@, "SEARCHING FOR "@ + uppered(title)] + (if t >= 450 {
        seq!["LOADING"@]
    } else {
        Seq::empty()
    }) + seq![cursor(t, 300)]
}

pub fn loading_lines(title: &str, t: u64) -> (r: Vec<String>)
    ensures
        texts(r@) == loading_lines_at(title@, t as int),
{
    let mut v: Vec<String> = Vec::new();
    assert(texts(v@) =~= Seq::empty());
    add_text(&mut v, "");
    add_text(&mut v, append("SEARCHING FOR ", to_uppercase(title).as_str()).as_str());
    if t >= 450 {
        add_text(&mut v, "LOADING");
    }
    add_text(&mut v, cursor_text(t, 300));
    assert(texts(v@) =~= loading_lines_at(title@, t as int));
    v
}

/// Whether the loading screen goes on: the work is not done, or it was too short to be
/// seen.
pub fn still_loading(finished: bool, t: u64) -> (r: bool)
    ensures
        r == !(finished && t >= LOADING_MIN),
{
    !(finished && t >= LOADING_MIN)
}

/// The stripe of the border in a row of the screen, of `n` colours, moving with time.
pub fn stripe(row: u16, t: u64, n: usize) -> (r: usize)
    requires
        n > 0,
    ensures
        r == (row + t / 60) % (n as int),
        r < n,
{
    let k: u64 = (row as u64 + t / 60) % (n as u64);
    k as usize
}

// ---- laws ----------------------------------------------------------------------------------------------

/// What is typed is a beginning of the command, grows with time, and is all of it when the
/// command is entered.
pub proof fn law_typing_completes(t: int, u: int)
    requires
        TYPE_START <= t <= u,
    ensures
        typed(load_command(), t - TYPE_START, PER_CHAR as int).len() <= typed(
            load_command(),
            u - TYPE_START,
            PER_CHAR as int,
        ).len(),
        typed(load_command(), t - TYPE_START, PER_CHAR as int) == load_command().take(
            typed(load_command(), t - TYPE_START, PER_CHAR as int).len() as int,
        ),
        u >= CMD_DONE ==> typed(load_command(), u - TYPE_START, PER_CHAR as int)
            == load_command(),
        u >= RUN_DONE ==> typed(run_command(), u - RUN_AT, PER_CHAR as int) == run_command(),
{
    reveal_strlit("LOAD\"BREADBIN\",8,1");
    reveal_strlit("RUN");
    assert(load_command().take(18) =~= load_command());
    assert(run_command().take(3) =~= run_command());
}

/// A shrunk part of the screen lies inside the part that it is of.
pub proof fn law_shrunk_is_inside(a: Rect, dx: int, dy: int)
    requires
        a.x + a.width <= u16::MAX,
        a.y + a.height <= u16::MAX,
        0 <= dx,
        0 <= dy,
    ensures
        ({
            let r = shrunk(a, dx, dy);
            a.x <= r.x && r.x + r.width <= a.x + a.width && a.y <= r.y && r.y + r.height <= a.y
                + a.height
        }),
{
}

/// A text is typed character by character: as many are there as have had their time.
pub proof fn law_typing_takes_its_time(s: Seq<char>, k: int, rest: int, per_char: int)
    requires
        0 < per_char,
        0 <= k,
        0 <= rest < per_char,
    ensures
        k <= s.len() ==> typed(s, k * per_char + rest, per_char) == s.take(k),
        k > s.len() ==> typed(s, k * per_char + rest, per_char) == s,
{
    assert((k * per_char + rest) / per_char == k) by (nonlinear_arith)
        requires
            0 < per_char,
            0 <= rest < per_char,
    ;
    assert(s.take(s.len() as int) =~= s);
}

/// The screen begins with the banner, and the cursor blinks below it until the typing begins;
/// then the command stands there, and what the machine answers.
pub proof fn law_the_machine_comes_up(t: int)
    requires
        0 <= t < 3095,
    ensures
        ({
            let ls = boot_lines_at(t);
            &&& ls.len() >= 7 || 1460 <= t < 1760
            &&& ls[1] == "    **** COMMODORE 64 BASIC V2 ****"@
            &&& ls[3] == " 64K RAM SYSTEM  38911 BASIC BYTES FREE"@
            &&& ls[5] == "READY."@
            &&& t < 650 ==> ls.len() == 7 && (ls[6] == "\u{2588}"@ || ls[6] == " "@)
            &&& 1460 <= t ==> ls[6] == "LOAD\"BREADBIN\",8,1"@
            &&& 1760 <= t ==> ls.len() == 12 && ls[8] == "SEARCHING FOR BREADBIN"@ && ls[9] == "LOADING"@
                && ls[10] == "READY."@
            &&& 2645 <= t ==> ls[11] == "RUN"@
        }),
{
    if t >= 1460 {
        law_typing_completes(t, t);
    }
}

/// The cursor is there and away for the same time in turn.
pub proof fn law_the_cursor_blinks(t: int, period: int)
    requires
        0 <= t,
        0 < period,
    ensures
        cursor(t, period) == "\u{2588}"@ || cursor(t, period) == " "@,
        (cursor(t + period, period) == "\u{2588}"@) != (cursor(t, period) == "\u{2588}"@),
        t < period ==> cursor(t, period) == "\u{2588}"@,
{
    reveal_strlit("\u{2588}");
    reveal_strlit(" ");
    assert("\u{2588}"@[0] != " "@[0]);
    assert((t + period) / period == t / period + 1) by (nonlinear_arith)
        requires
            0 < period,
    ;
    if t < period {
        assert(t / period == 0) by (nonlinear_arith)
            requires
                0 <= t < period,
        ;
    }
}

/// The loading screen of a game names it, and says from the second beat on that it loads.
pub proof fn law_loading_names_the_game(title: Seq<char>, t: int)
    ensures
        loading_lines_at(title, t)[1] == "SEARCHING FOR "@ + uppered(title),
        t < 450 ==> loading_lines_at(title, t).len() == 3,
        t >= 450 ==> loading_lines_at(title, t).len() == 4 && loading_lines_at(title, t)[2] == "LOADING"@,
{
}

/// A border is as wide on both sides, where there is room.
pub proof fn law_borders_are_even(a: Rect, dx: int, dy: int)
    requires
        0 <= dx,
        0 <= dy,
        2 * dx <= a.width,
        2 * dy <= a.height,
        a.x + a.width <= u16::MAX,
        a.y + a.height <= u16::MAX,
    ensures
        shrunk(a, dx, dy).x == a.x + dx,
        shrunk(a, dx, dy).y == a.y + dy,
        shrunk(a, dx, dy).width == a.width - 2 * dx,
        shrunk(a, dx, dy).height == a.height - 2 * dy,
{
}

} // verus!
