//! Fitting text to the screen: cutting it, wrapping it, and the size of a dialog.

use crate::grid::{max_int, min_int, Rect};
use crate::text::{
    ascii_uppered, chars_of, is_ascii_text, is_space, join, joined, lines, lines_of, space,
    string_range, texts,
};
use vstd::prelude::*;

verus! {

// ---- cutting -----------------------------------------------------------------------------------------

/// A text of at most `n` characters; a longer one ends with an ellipsis.
pub open spec fn cut(s: Seq<char>, n: int) -> Seq<char> {
    if s.len() <= n {
        s
    } else if n <= 0 {
        Seq::empty()
    } else {
        s.take(n - 1).push('\u{2026}')
    }
}

/// Cuts a text to at most `n` characters.
pub fn trunc(s: &str, n: usize) -> (r: String)
    ensures
        r@ == cut(s@, n as int),
{
    let v = chars_of(s);
    if v.len() <= n {
        return s.to_owned();
    }
    if n == 0 {
        return String::new();
    }
    let mut r = string_range(&v, 0, n - 1);
    assert(r@ =~= s@.take(n - 1));
    r.push('\u{2026}');
    r
}

/// A cut text fits, and one that fits is not cut.
pub proof fn law_cut_fits(s: Seq<char>, n: int)
    requires
        0 <= n,
    ensures
        cut(s, n).len() <= n,
        s.len() <= n ==> cut(s, n) == s,
{
}

/// A text with a space between its characters.
pub open spec fn spaced(s: Seq<char>) -> Seq<char> {
    joined(s.map_values(|c: char| seq![c]), " "@)
}

/// What `str::to_uppercase` makes of a text that is not in ASCII alone.
pub uninterp spec fn unicode_uppered(s: Seq<char>) -> Seq<char>;

/// A text in capitals, by the rules of Unicode.
pub open spec fn uppered(s: Seq<char>) -> Seq<char> {
    if is_ascii_text(s) {
        ascii_uppered(s)
    } else {
        unicode_uppered(s)
    }
}

/// `str::to_uppercase`: in ASCII the small letters become the capital ones and nothing else
/// changes.
#[verifier::external_body]
pub(crate) fn to_uppercase(s: &str) -> (r: String)
    ensures
        r@ == if is_ascii_text(s@) {
            ascii_uppered(s@)
        } else {
            unicode_uppered(s@)
        },
{
    s.to_uppercase()
}

/// Puts a space between the characters of a text.
pub fn space_out(s: &str) -> (r: String)
    ensures
        r@ == spaced(s@),
{
    let v = chars_of(s);
    let mut parts: Vec<String> = Vec::new();
    let mut i: usize = 0;
    while i < v.len()
        invariant
            v@ == s@,
            i <= v@.len(),
            parts@.len() == i,
            forall|k: int| 0 <= k < i ==> (#[trigger] parts@[k])@ == seq![s@[k]],
        decreases v@.len() - i,
    {
        let mut p = String::new();
        p.push(v[i]);
        assert(p@ =~= seq![s@[i as int]]);
        parts.push(p);
        i += 1;
    }
    assert(texts(parts@) =~= s@.map_values(|c: char| seq![c]));
    join(&parts, " ")
}

/// A heading: in capitals, with spaces between them.
pub fn spaced_upper(s: &str) -> (r: String)
    ensures
        r@ == spaced(uppered(s@)),
{
    space_out(to_uppercase(s).as_str())
}

// ---- wrapping ------------------------------------------------------------------------------------------

/// Where the white space from `i` on ends.
pub open spec fn after_space(s: Seq<char>, i: int) -> int
    decreases s.len() - i,
{
    if 0 <= i < s.len() && is_space(s[i]) {
        after_space(s, i + 1)
    } else {
        i
    }
}

/// Where the word from `i` on ends.
pub open spec fn after_word(s: Seq<char>, i: int) -> int
    decreases s.len() - i,
{
    if 0 <= i < s.len() && !is_space(s[i]) {
        after_word(s, i + 1)
    } else {
        i
    }
}

/// The words of a text from `i` on.
pub open spec fn words_from(s: Seq<char>, i: int) -> Seq<Seq<char>>
    decreases s.len() - i,
{
    let from = after_space(s, i);
    let to = after_word(s, from);
    if 0 <= i && from < to && to <= s.len() && i < to {
        seq![s.subrange(from, to)] + words_from(s, to)
    } else {
        Seq::empty()
    }
}

/// The words of a text: what white space parts.
pub fn split_whitespace(s: &str) -> (r: Vec<String>)
    ensures
        texts(r@) == words_from(s@, 0),
{
    let v = chars_of(s);
    let mut r: Vec<String> = Vec::new();
    let mut i: usize = 0;
    assert(texts(r@) + words_from(s@, 0) =~= words_from(s@, 0));
    loop
        invariant
            v@ == s@,
            i <= v@.len(),
            texts(r@) + words_from(s@, i as int) == words_from(s@, 0),
        decreases v@.len() - i,
    {
        let mut from: usize = i;
        while from < v.len() && space(v[from])
            invariant
                v@ == s@,
                i <= from <= v@.len(),
                after_space(s@, i as int) == after_space(s@, from as int),
            decreases v@.len() - from,
        {
            from += 1;
        }
        let mut to: usize = from;
        while to < v.len() && !space(v[to])
            invariant
                v@ == s@,
                from <= to <= v@.len(),
                after_word(s@, from as int) == after_word(s@, to as int),
            decreases v@.len() - to,
        {
            to += 1;
        }
        if from == to {
            assert(texts(r@) + words_from(s@, i as int) =~= texts(r@));
            return r;
        }
        let w = string_range(&v, from, to);
        proof {
            assert(texts(r@.push(w)) =~= texts(r@).push(w@));
            assert(texts(r@) + (seq![w@] + words_from(s@, to as int)) =~= texts(r@).push(w@)
                + words_from(s@, to as int));
        }
        r.push(w);
        i = to;
    }
}

/// The full lines and the one that is being filled, when a word is put behind them. It goes
/// on the line where it fits and on a new line where it does not; one that is longer than a
/// whole line is broken, and begins in what room the line has.
pub open spec fn placed(
    out: Seq<Seq<char>>,
    line: Seq<char>,
    w: Seq<char>,
    width: int,
) -> (Seq<Seq<char>>, Seq<char>)
    decreases w.len(), line.len(),
{
    if width <= 0 {
        (out, line)
    } else if line.len() == 0 {
        if w.len() <= width {
            (out, w)
        } else {
            placed(out.push(w.take(width)), Seq::empty(), w.skip(width), width)
        }
    } else if line.len() + 1 + w.len() <= width {
        (out, line + " "@ + w)
    } else if w.len() > width && line.len() + 1 < width {
        let room = width - line.len() - 1;
        placed(out.push(line + " "@ + w.take(room)), Seq::empty(), w.skip(room), width)
    } else {
        placed(out.push(line), Seq::empty(), w, width)
    }
}

/// The lines of words when each line takes as many as fit: the lines that are full,
/// and the one that is being filled.
pub open spec fn filled(words: Seq<Seq<char>>, width: int) -> (Seq<Seq<char>>, Seq<char>)
    decreases words.len(),
{
    if words.len() == 0 {
        (Seq::empty(), Seq::empty())
    } else {
        let (out, line) = filled(words.drop_last(), width);
        placed(out, line, words.last(), width)
    }
}

/// Words wrapped to a width.
pub open spec fn wrapped(words: Seq<Seq<char>>, width: int) -> Seq<Seq<char>> {
    let (out, line) = filled(words, width);
    if width <= 0 {
        Seq::empty()
    } else if line.len() == 0 {
        out
    } else {
        out.push(line)
    }
}

fn add_range(line: &mut Vec<char>, w: &Vec<char>, from: usize, to: usize)
    requires
        from <= to <= w@.len(),
    ensures
        final(line)@ == old(line)@ + w@.subrange(from as int, to as int),
{
    let mut k: usize = from;
    let ghost was = line@;
    assert(line@ =~= was + w@.subrange(from as int, from as int));
    while k < to
        invariant
            from <= k <= to <= w@.len(),
            line@ == was + w@.subrange(from as int, k as int),
        decreases to - k,
    {
        line.push(w[k]);
        k += 1;
        assert(line@ =~= was + w@.subrange(from as int, k as int));
    }
}

fn add_line(out: &mut Vec<String>, line: &Vec<char>)
    ensures
        texts(final(out)@) == texts(old(out)@).push(line@),
{
    let full = string_range(line, 0, line.len());
    assert(full@ =~= line@);
    assert(texts(out@.push(full)) =~= texts(out@).push(full@));
    out.push(full);
}

/// Puts a word behind the lines so far.
fn put_word(out: &mut Vec<String>, line: &mut Vec<char>, w: &Vec<char>, width: usize)
    requires
        width > 0,
        old(line)@.len() <= width,
    ensures
        (texts(final(out)@), final(line)@) == placed(
            texts(old(out)@),
            old(line)@,
            w@,
            width as int,
        ),
        final(line)@.len() <= width,
{
    let ghost goal = placed(texts(out@), line@, w@, width as int);
    let mut from: usize = 0;
    assert(w@.skip(0) =~= w@);
    loop
        invariant
            width > 0,
            line@.len() <= width,
            from <= w@.len(),
            goal == placed(texts(out@), line@, w@.skip(from as int), width as int),
            goal == placed(texts(old(out)@), old(line)@, w@, width as int),
        decreases w@.len() - from, line@.len(),
    {
        let left: usize = w.len() - from;
        let ghost rest = w@.skip(from as int);
        let ghost was = line@;
        proof {
            reveal_strlit(" ");
            assert(" "@ =~= seq![' ']);
            assert(w@.subrange(from as int, w@.len() as int) =~= rest);
        }
        if line.len() == 0 {
            if left <= width {
                add_range(line, w, from, w.len());
                assert(line@ =~= rest);
                return;
            }
            add_range(line, w, from, from + width);
            assert(line@ =~= rest.take(width as int));
            add_line(out, line);
            line.clear();
            assert(line@ =~= Seq::empty());
            assert(rest.skip(width as int) =~= w@.skip(from + width));
            from = from + width;
        } else if line.len() < width && left <= width - line.len() - 1 {
            line.push(' ');
            add_range(line, w, from, w.len());
            assert(line@ =~= was + " "@ + rest);
            return;
        } else if left > width && line.len() < width - 1 {
            let room: usize = width - line.len() - 1;
            line.push(' ');
            add_range(line, w, from, from + room);
            assert(line@ =~= was + " "@ + rest.take(room as int));
            add_line(out, line);
            line.clear();
            assert(line@ =~= Seq::empty());
            assert(rest.skip(room as int) =~= w@.skip(from + room));
            from = from + room;
        } else {
            add_line(out, line);
            line.clear();
            assert(line@ =~= Seq::empty());
        }
    }
}

/// Wraps words to a width.
pub fn wrap_words(words: &Vec<String>, width: usize) -> (r: Vec<String>)
    ensures
        texts(r@) == wrapped(texts(words@), width as int),
{
    let ghost ws = texts(words@);
    let mut out: Vec<String> = Vec::new();
    assert(texts(out@) =~= Seq::empty());
    if width == 0 {
        return out;
    }
    let mut line: Vec<char> = Vec::new();
    let mut i: usize = 0;
    assert(ws.take(0) =~= Seq::empty());
    while i < words.len()
        invariant
            width > 0,
            ws == texts(words@),
            i <= words@.len(),
            line@.len() <= width,
            (texts(out@), line@) == filled(ws.take(i as int), width as int),
        decreases words@.len() - i,
    {
        let w = chars_of(words[i].as_str());
        proof {
            assert(ws.take(i + 1).drop_last() =~= ws.take(i as int));
            assert(ws[i as int] == w@);
        }
        put_word(&mut out, &mut line, &w, width);
        i += 1;
    }
    assert(ws.take(i as int) =~= ws);
    if line.len() > 0 {
        add_line(&mut out, &line);
    }
    out
}

/// Wraps a text to a width, with white space made single spaces.
pub fn wrap(text: &str, width: usize) -> (r: Vec<String>)
    ensures
        texts(r@) == wrapped(words_from(text@, 0), width as int),
{
    wrap_words(&split_whitespace(text), width)
}

/// Every line has at most the width.
pub open spec fn all_fit(ls: Seq<Seq<char>>, width: int) -> bool {
    forall|i: int| 0 <= i < ls.len() ==> (#[trigger] ls[i]).len() <= width
}

proof fn lemma_placed_fits(out: Seq<Seq<char>>, line: Seq<char>, w: Seq<char>, width: int)
    requires
        all_fit(out, width),
        line.len() <= width,
    ensures
        all_fit(placed(out, line, w, width).0, width),
        placed(out, line, w, width).1.len() <= width,
    decreases w.len(), line.len(),
{
    reveal_strlit(" ");
    if width > 0 {
        if line.len() == 0 {
            if w.len() > width {
                lemma_placed_fits(out.push(w.take(width)), Seq::empty(), w.skip(width), width);
            }
        } else if line.len() + 1 + w.len() <= width {
        } else if w.len() > width && line.len() + 1 < width {
            let room = width - line.len() - 1;
            let full = line + " "@ + w.take(room);
            lemma_placed_fits(out.push(full), Seq::empty(), w.skip(room), width);
        } else {
            lemma_placed_fits(out.push(line), Seq::empty(), w, width);
        }
    }
}

proof fn lemma_filled_fits(words: Seq<Seq<char>>, width: int)
    requires
        width > 0,
    ensures
        all_fit(filled(words, width).0, width),
        filled(words, width).1.len() <= width,
    decreases words.len(),
{
    if words.len() > 0 {
        lemma_filled_fits(words.drop_last(), width);
        let (out, line) = filled(words.drop_last(), width);
        lemma_placed_fits(out, line, words.last(), width);
    }
}

/// No wrapped line is wider than the width.
pub proof fn law_wrapped_lines_fit(words: Seq<Seq<char>>, width: int, i: int)
    requires
        0 <= i < wrapped(words, width).len(),
    ensures
        wrapped(words, width)[i].len() <= width,
{
    lemma_filled_fits(words, width);
}

/// The characters of a text but for its spaces.
pub open spec fn inked(s: Seq<char>) -> Seq<char> {
    s.filter(|c: char| c != ' ')
}

proof fn lemma_inked_sum(a: Seq<char>, b: Seq<char>)
    ensures
        inked(a + b) == inked(a) + inked(b),
{
    Seq::filter_distributes_over_add(a, b, |c: char| c != ' ');
}

proof fn lemma_inked_space()
    ensures
        inked(" "@) == Seq::<char>::empty(),
        inked(Seq::empty()) == Seq::<char>::empty(),
{
    reveal(Seq::filter);
    reveal_strlit(" ");
    let p = |c: char| c != ' ';
    assert(" "@.drop_last() =~= Seq::empty());
    assert(" "@.last() == ' ');
    assert(Seq::<char>::empty().filter(p) =~= Seq::empty());
}

/// The characters of several texts, in order, but for their spaces.
pub open spec fn all_inked(ls: Seq<Seq<char>>) -> Seq<char>
    decreases ls.len(),
{
    if ls.len() == 0 {
        Seq::empty()
    } else {
        all_inked(ls.drop_last()) + inked(ls.last())
    }
}

proof fn lemma_inked_push(ls: Seq<Seq<char>>, l: Seq<char>)
    ensures
        all_inked(ls.push(l)) == all_inked(ls) + inked(l),
{
    assert(ls.push(l).drop_last() =~= ls);
}

proof fn lemma_placed_inked(out: Seq<Seq<char>>, line: Seq<char>, w: Seq<char>, width: int)
    requires
        width > 0,
    ensures
        ({
            let (o, l) = placed(out, line, w, width);
            all_inked(o) + inked(l) == all_inked(out) + inked(line) + inked(w)
        }),
    decreases w.len(), line.len(),
{
    lemma_inked_space();
    if line.len() == 0 {
        assert(line =~= Seq::empty());
        if w.len() > width {
            let head = w.take(width);
            let tail = w.skip(width);
            lemma_placed_inked(out.push(head), Seq::empty(), tail, width);
            lemma_inked_push(out, head);
            lemma_inked_sum(head, tail);
            assert(head + tail =~= w);
            assert(all_inked(out) + inked(head) + inked(Seq::empty()) + inked(tail)
                =~= all_inked(out) + inked(line) + (inked(head) + inked(tail)));
        } else {
            assert(all_inked(out) + inked(w) =~= all_inked(out) + inked(line) + inked(w));
        }
    } else if line.len() + 1 + w.len() <= width {
        lemma_inked_sum(line + " "@, w);
        lemma_inked_sum(line, " "@);
        assert(all_inked(out) + (inked(line) + inked(" "@) + inked(w)) =~= all_inked(out)
            + inked(line) + inked(w));
    } else if w.len() > width && line.len() + 1 < width {
        let room = width - line.len() - 1;
        let head = w.take(room);
        let tail = w.skip(room);
        let full = line + " "@ + head;
        lemma_placed_inked(out.push(full), Seq::empty(), tail, width);
        lemma_inked_push(out, full);
        lemma_inked_sum(line + " "@, head);
        lemma_inked_sum(line, " "@);
        lemma_inked_sum(head, tail);
        assert(head + tail =~= w);
        assert(all_inked(out) + (inked(line) + inked(" "@) + inked(head)) + inked(Seq::empty())
            + inked(tail) =~= all_inked(out) + inked(line) + (inked(head) + inked(tail)));
    } else {
        lemma_placed_inked(out.push(line), Seq::empty(), w, width);
        lemma_inked_push(out, line);
        assert(all_inked(out) + inked(line) + inked(Seq::empty()) + inked(w) =~= all_inked(out)
            + inked(line) + inked(w));
    }
}

proof fn lemma_filled_inked(words: Seq<Seq<char>>, width: int)
    requires
        width > 0,
    ensures
        all_inked(filled(words, width).0) + inked(filled(words, width).1) == all_inked(words),
    decreases words.len(),
{
    if words.len() == 0 {
        lemma_inked_space();
        assert(all_inked(words) + inked(Seq::empty()) =~= all_inked(words));
    } else {
        lemma_filled_inked(words.drop_last(), width);
        let (out, line) = filled(words.drop_last(), width);
        lemma_placed_inked(out, line, words.last(), width);
    }
}

/// Wrapping loses no character and changes no order: but for spaces, the lines hold what
/// the words hold.
pub proof fn law_wrapping_loses_nothing(words: Seq<Seq<char>>, width: int)
    requires
        width > 0,
    ensures
        all_inked(wrapped(words, width)) == all_inked(words),
{
    lemma_filled_inked(words, width);
    let (out, line) = filled(words, width);
    if line.len() == 0 {
        lemma_inked_space();
        assert(line =~= Seq::empty());
        assert(all_inked(out) + inked(line) =~= all_inked(out));
    } else {
        lemma_inked_push(out, line);
    }
}

proof fn lemma_line_not_empty(words: Seq<Seq<char>>, width: int)
    requires
        words.len() > 0,
        width > 0,
        0 < words.last().len() <= width,
    ensures
        filled(words, width).1.len() > 0,
{
    let (out, line) = filled(words.drop_last(), width);
    let w = words.last();
    assert(placed(out.push(line), Seq::empty(), w, width) == (out.push(line), w));
}

/// Words that fit on a line stay whole: the lines, with spaces between them, are the words
/// with spaces between them.
pub proof fn law_wrapping_keeps_the_words(words: Seq<Seq<char>>, width: int)
    requires
        forall|i: int| 0 <= i < words.len() ==> 0 < (#[trigger] words[i]).len() <= width,
        width > 0,
    ensures
        joined(wrapped(words, width), " "@) == joined(words, " "@),
    decreases words.len(),
{
    if words.len() == 0 {
        assert(wrapped(words, width) =~= Seq::empty());
    } else {
        let init = words.drop_last();
        let w = words.last();
        assert(0 < words[words.len() - 1].len() <= width);
        assert forall|i: int| 0 <= i < init.len() implies 0 < (#[trigger] init[i]).len()
            <= width by {
            assert(0 < words[i].len() <= width);
        }
        law_wrapping_keeps_the_words(init, width);
        lemma_line_not_empty(words, width);
        let (out0, line0) = filled(init, width);
        let (out, line) = filled(words, width);
        let now = wrapped(words, width);
        assert(now == out.push(line));
        assert(now.drop_last() =~= out);
        if init.len() == 0 {
            assert(out =~= Seq::empty());
            assert(line =~= w);
        } else {
            assert(0 < init[init.len() - 1].len() <= width);
            lemma_line_not_empty(init, width);
            let before = wrapped(init, width);
            assert(before == out0.push(line0));
            assert(before.drop_last() =~= out0);
            if line0.len() + 1 + w.len() <= width {
                assert(out == out0);
                if out0.len() == 0 {
                    assert(joined(before, " "@) == line0);
                    assert(joined(now, " "@) == line);
                } else {
                    assert(joined(now, " "@) =~= joined(before, " "@) + " "@ + w);
                }
            } else {
                assert(placed(out0.push(line0), Seq::empty(), w, width) == (out0.push(line0), w));
                assert(out =~= before);
                assert(joined(now, " "@) == joined(before, " "@) + " "@ + w);
            }
        }
    }
}

// ---- dialogs -----------------------------------------------------------------------------------------------

/// The rows that lines take when each is wrapped to a width: at least one in all.
pub open spec fn rows_taken(ls: Seq<Seq<char>>, width: int) -> int
    decreases ls.len(),
{
    if ls.len() == 0 {
        0
    } else {
        rows_taken(ls.drop_last(), width) + ls.last().len() as int / width + 1
    }
}

/// A dialog in the middle of the screen: three fifths of its width, but at least
/// `min_w` columns and at most two fewer than there are; and so many rows, where there
/// is room.
pub open spec fn dialog(area: Rect, min_w: u16, rows: int) -> Rect {
    let wide = min_int(3 * area.width, 0xffff) / 5;
    let w = max_int(min_w as int, min_int(wide, area.width - 2));
    let h = min_int(rows, area.height as int);
    Rect {
        x: ((area.width - w) / 2) as u16,
        y: ((area.height - h) / 2) as u16,
        width: w as u16,
        height: h as u16,
    }
}

/// The place of a dialog on the screen.
pub fn dialog_rect(area: Rect, min_w: u16, rows: u16) -> (r: Rect)
    requires
        1 <= min_w,
        min_w + 2 <= area.width,
    ensures
        r == dialog(area, min_w, rows as int),
{
    let thrice: u32 = 3 * area.width as u32;
    let wide: u32 = (if thrice <= 0xffff {
        thrice
    } else {
        0xffff
    }) / 5;
    let most: u32 = area.width as u32 - 2;
    let w: u32 = if wide <= most {
        wide
    } else {
        most
    };
    let w: u16 = if w >= min_w as u32 {
        w as u16
    } else {
        min_w
    };
    let h: u16 = if rows <= area.height {
        rows
    } else {
        area.height
    };
    Rect { x: (area.width - w) / 2, y: (area.height - h) / 2, width: w, height: h }
}

/// The rows of an error dialog: the reason, wrapped to what is inside the border, and
/// four more.
pub open spec fn error_rows(detail: Seq<char>, width: u16) -> int {
    let inner = max_int(1, width - 4);
    max_int(1, rows_taken(lines_of(detail), inner)) + 4
}

/// The place of an error dialog.
pub open spec fn error_place(area: Rect, detail: Seq<char>) -> Rect {
    dialog(area, 30, error_rows(detail, dialog(area, 30, 0).width))
}

/// The place of an error dialog on the screen.
pub fn error_rect(area: Rect, detail: &str) -> (r: Rect)
    requires
        32 <= area.width,
    ensures
        r == error_place(area, detail@),
{
    let width: u16 = dialog_rect(area, 30, 0).width;
    let inner: usize = if width > 4 {
        (width - 4) as usize
    } else {
        1
    };
    let ls = lines(detail);
    let ghost all = texts(ls@);
    let mut rows: u32 = 0;
    let mut i: usize = 0;
    assert(all.take(0) =~= Seq::empty());
    while i < ls.len()
        invariant
            all == texts(ls@),
            inner > 0,
            i <= ls@.len(),
            rows == min_int(rows_taken(all.take(i as int), inner as int), 0xffff),
            rows_taken(all.take(i as int), inner as int) >= 0,
        decreases ls@.len() - i,
    {
        let len: usize = chars_of(ls[i].as_str()).len();
        proof {
            assert(all.take(i + 1).drop_last() =~= all.take(i as int));
            assert(all[i as int] == ls@[i as int]@);
            assert(0 <= len as int / inner as int) by (nonlinear_arith)
                requires
                    inner > 0,
                    len >= 0,
            ;
        }
        let more: usize = len / inner;
        if more < 0xffff && rows + (more as u32) < 0xffff {
            rows = rows + more as u32 + 1;
        } else {
            rows = 0xffff;
        }
        i += 1;
    }
    assert(all.take(i as int) =~= all);
    let rows: u32 = if rows >= 1 {
        rows + 4
    } else {
        5
    };
    dialog_rect(
        area,
        30,
        if rows <= 0xffff {
            rows as u16
        } else {
            0xffff
        },
    )
}

/// A dialog lies on the screen.
pub proof fn law_dialogs_are_on_screen(area: Rect, min_w: u16, rows: int)
    requires
        1 <= min_w,
        min_w + 2 <= area.width,
        0 <= rows,
    ensures
        ({
            let d = dialog(area, min_w, rows);
            &&& d.x + d.width <= area.width
            &&& d.y + d.height <= area.height
            &&& min_w <= d.width
        }),
{
}

// ---- more on fitting ------------------------------------------------------------------------------------------------

/// A text that is too long keeps its beginning, and a mark in its last place says so.
pub proof fn law_cut_texts_say_so(s: Seq<char>, n: int)
    requires
        0 < n < s.len(),
    ensures
        cut(s, n).len() == n,
        cut(s, n).take(n - 1) == s.take(n - 1),
        cut(s, n).last() == '\u{2026}',
{
    assert(cut(s, n).take(n - 1) =~= s.take(n - 1));
}

/// A text is spaced out by one space between its characters, and none around them.
pub proof fn law_spaced_texts(s: Seq<char>, i: int)
    requires
        s.len() > 0,
        0 <= i < s.len(),
    ensures
        spaced(s).len() == 2 * s.len() - 1,
        spaced(s)[2 * i] == s[i],
        i > 0 ==> spaced(s)[2 * i - 1] == ' ',
    decreases s.len(),
{
    reveal_strlit(" ");
    let parts = s.map_values(|c: char| seq![c]);
    if s.len() == 1 {
        assert(parts[0] == seq![s[0]]);
    } else {
        let init = s.drop_last();
        assert(parts.drop_last() =~= init.map_values(|c: char| seq![c]));
        law_spaced_texts(init, if i < init.len() {
            i
        } else {
            0
        });
        assert(spaced(s) == spaced(init) + " "@ + seq![s.last()]);
        if i == init.len() {
            assert(spaced(s)[2 * i - 1] == ' ');
        }
    }
}

/// A line is not ended while the next word still has room on it.
pub proof fn law_lines_take_what_fits(words: Seq<Seq<char>>, w: Seq<char>, width: int)
    requires
        width > 0,
        0 < w.len() <= width,
    ensures
        ({
            let (out, line) = filled(words, width);
            let (out2, line2) = filled(words.push(w), width);
            &&& line.len() == 0 ==> out2 == out && line2 == w
            &&& line.len() > 0 && line.len() + 1 + w.len() <= width ==> out2 == out && line2 == line
                + seq![' '] + w
            &&& line.len() > 0 && line.len() + 1 + w.len() > width ==> out2 == out.push(line) && line2
                == w
        }),
{
    reveal_strlit(" ");
    assert(" "@ =~= seq![' ']);
    assert(words.push(w).drop_last() =~= words);
    let (out, line) = filled(words, width);
    assert(placed(out.push(line), Seq::empty(), w, width) == (out.push(line), w));
}

/// A dialog stands in the middle of the screen and takes three fifths of its width, where
/// that is neither too little for it nor more than there is between two borders.
pub proof fn law_dialogs_are_in_the_middle(area: Rect, min_w: u16, rows: int)
    requires
        1 <= min_w,
        min_w + 2 <= area.width,
        area.width <= 20000,
        0 <= rows <= area.height,
    ensures
        ({
            let d = dialog(area, min_w, rows);
            let wide = 3 * area.width / 5;
            &&& min_w <= wide <= area.width - 2 ==> d.width == wide
            &&& wide < min_w ==> d.width == min_w
            &&& d.height == rows
            &&& 0 <= area.width - d.width - 2 * d.x <= 1
            &&& 0 <= area.height - d.height - 2 * d.y <= 1
        }),
{
}

/// A word ends where white space begins.
pub proof fn law_words_have_no_space(s: Seq<char>, i: int, k: int, c: int)
    requires
        0 <= i <= s.len(),
        0 <= k < words_from(s, i).len(),
        0 <= c < words_from(s, i)[k].len(),
    ensures
        !is_space(words_from(s, i)[k][c]),
        words_from(s, i)[k].len() > 0,
    decreases s.len() - i,
{
    let from = after_space(s, i);
    let to = after_word(s, from);
    lemma_after(s, i);
    lemma_after(s, from);
    if k == 0 {
        assert(words_from(s, i)[0] == s.subrange(from, to));
        assert(s.subrange(from, to)[c] == s[from + c]);
    } else {
        assert(words_from(s, i)[k] == words_from(s, to)[k - 1]);
        law_words_have_no_space(s, to, k - 1, c);
    }
}

proof fn lemma_after(s: Seq<char>, i: int)
    requires
        0 <= i <= s.len(),
    ensures
        i <= after_space(s, i) <= s.len(),
        i <= after_word(s, i) <= s.len(),
        forall|k: int| i <= k < after_word(s, i) ==> !is_space(#[trigger] s[k]),
        forall|k: int| i <= k < after_space(s, i) ==> is_space(#[trigger] s[k]),
    decreases s.len() - i,
{
    if i < s.len() {
        lemma_after(s, i + 1);
    }
}

/// The dialog of an error has room for its text, line by line, and four rows more.
pub proof fn law_errors_have_room(ls: Seq<Seq<char>>, l: Seq<char>, width: int, detail: Seq<char>, w: u16)
    requires
        width > 0,
        w >= 5,
    ensures
        rows_taken(ls.push(l), width) == rows_taken(ls, width) + l.len() as int / width + 1,
        rows_taken(Seq::empty(), width) == 0,
        rows_taken(lines_of(detail), w - 4) >= 1 ==> error_rows(detail, w) == rows_taken(
            lines_of(detail),
            w - 4,
        ) + 4,
        detail.len() == 0 ==> error_rows(detail, w) == 5,
{
    assert(ls.push(l).drop_last() =~= ls);
}

} // verus!
