//! Titles: the key that every comparison of titles goes by, and what is cut off a
//! title before it is compared.

use crate::pattern::{
    compile, cut_at_first, cut_before, find_all, find_pattern, founds, in_order, matches_of,
    regex_compiles, regex_matches, splice, splice_with, spliced, spliced_upto, spliced_with,
    Found, Pattern,
};
use crate::text::{
    ascii_lowered, ascii_uppered, chars_of, is_ascii_text, law_lowering_undoes_capitals,
    lowered, replace, replaced, same, string_of, texts, to_lowercase,
};
use vstd::prelude::*;

verus! {

/// An abbreviated word in full; other words as they are.
pub open spec fn expansion(w: Seq<char>) -> Seq<char> {
    if w == "jr"@ {
        "junior"@
    } else if w == "bros"@ {
        "brothers"@
    } else if w == "intl"@ {
        "international"@
    } else if w == "vs"@ {
        "versus"@
    } else if w == "n"@ {
        "and"@
    } else {
        w
    }
}

/// A roman numeral in figures; other words as they are.
pub open spec fn figures(w: Seq<char>) -> Seq<char> {
    if w == "i"@ {
        "1"@
    } else if w == "ii"@ {
        "2"@
    } else if w == "iii"@ {
        "3"@
    } else if w == "iv"@ {
        "4"@
    } else if w == "v"@ {
        "5"@
    } else if w == "vi"@ {
        "6"@
    } else if w == "vii"@ {
        "7"@
    } else if w == "viii"@ {
        "8"@
    } else if w == "ix"@ {
        "9"@
    } else if w == "x"@ {
        "10"@
    } else {
        w
    }
}

/// What the first group of a match holds; nothing where it took no part.
pub open spec fn group_of(m: (int, int, Option<Seq<char>>)) -> Seq<char> {
    match m.2 {
        Some(g) => g,
        None => Seq::empty(),
    }
}

/// A text with the abbreviations that were found in it written out.
pub open spec fn abbreviations_expanded(
    text: Seq<char>,
    ms: Seq<(int, int, Option<Seq<char>>)>,
) -> Seq<char> {
    spliced(text, ms, ms.map_values(|m: (int, int, Option<Seq<char>>)| expansion(group_of(m))))
}

/// A text with the roman numerals that were found in it in figures.
pub open spec fn romans_in_figures(
    text: Seq<char>,
    ms: Seq<(int, int, Option<Seq<char>>)>,
) -> Seq<char> {
    spliced(text, ms, ms.map_values(|m: (int, int, Option<Seq<char>>)| figures(group_of(m))))
}

/// The characters that a key is made of.
pub open spec fn is_key_char(c: char) -> bool {
    'a' <= c <= 'z' || '0' <= c <= '9'
}

/// A text without the characters that a key does not have.
pub open spec fn key_chars(s: Seq<char>) -> Seq<char>
    decreases s.len(),
{
    if s.len() == 0 {
        Seq::empty()
    } else if is_key_char(s.last()) {
        key_chars(s.drop_last()).push(s.last())
    } else {
        key_chars(s.drop_last())
    }
}

/// A title in lower case, with "&" and the abbreviations written out.
pub open spec fn in_full(title: Seq<char>) -> Seq<char> {
    let a = replaced(lowered(title), "&"@, " and "@);
    abbreviations_expanded(a, matches_of(Pattern::Abbreviation, a))
}

/// The comparison key of a title: lower case, "&" and a few abbreviations written
/// out, roman numerals in figures, articles dropped, and of what is left only
/// letters and figures.
pub open spec fn norm_of(title: Seq<char>) -> Seq<char> {
    let b = in_full(title);
    let c = romans_in_figures(b, matches_of(Pattern::Roman, b));
    let d = spliced_with(c, matches_of(Pattern::Article, c), " "@);
    key_chars(d)
}

fn expand(w: &str) -> (r: String)
    ensures
        r@ == expansion(w@),
{
    if same(w, "jr") {
        "junior".to_string()
    } else if same(w, "bros") {
        "brothers".to_string()
    } else if same(w, "intl") {
        "international".to_string()
    } else if same(w, "vs") {
        "versus".to_string()
    } else if same(w, "n") {
        "and".to_string()
    } else {
        w.to_string()
    }
}

fn in_figures(w: &str) -> (r: String)
    ensures
        r@ == figures(w@),
{
    if same(w, "i") {
        "1".to_string()
    } else if same(w, "ii") {
        "2".to_string()
    } else if same(w, "iii") {
        "3".to_string()
    } else if same(w, "iv") {
        "4".to_string()
    } else if same(w, "v") {
        "5".to_string()
    } else if same(w, "vi") {
        "6".to_string()
    } else if same(w, "vii") {
        "7".to_string()
    } else if same(w, "viii") {
        "8".to_string()
    } else if same(w, "ix") {
        "9".to_string()
    } else if same(w, "x") {
        "10".to_string()
    } else {
        w.to_string()
    }
}

fn group_text(f: &Found) -> (r: String)
    ensures
        r@ == group_of(f@),
{
    match &f.group {
        Some(g) => g.clone(),
        None => String::new(),
    }
}

/// Writes out the abbreviations that were found.
pub fn expand_abbreviations(text: &str, found: &Vec<Found>) -> (r: String)
    requires
        in_order(founds(found@), text@.len()),
    ensures
        r@ == abbreviations_expanded(text@, founds(found@)),
{
    let ghost ms = founds(found@);
    let ghost goal = ms.map_values(|m: (int, int, Option<Seq<char>>)| expansion(group_of(m)));
    let mut by: Vec<String> = Vec::new();
    let mut i: usize = 0;
    while i < found.len()
        invariant
            ms == founds(found@),
            goal == ms.map_values(|m: (int, int, Option<Seq<char>>)| expansion(group_of(m))),
            i <= found@.len(),
            by@.len() == i,
            forall|k: int| 0 <= k < i ==> (#[trigger] by@[k])@ == goal[k],
        decreases found@.len() - i,
    {
        assert(ms[i as int] == found@[i as int]@);
        by.push(expand(group_text(&found[i]).as_str()));
        i += 1;
    }
    assert(texts(by@) =~= goal);
    splice(text, found, &by)
}

/// Puts the roman numerals that were found in figures.
pub fn put_in_figures(text: &str, found: &Vec<Found>) -> (r: String)
    requires
        in_order(founds(found@), text@.len()),
    ensures
        r@ == romans_in_figures(text@, founds(found@)),
{
    let ghost ms = founds(found@);
    let ghost goal = ms.map_values(|m: (int, int, Option<Seq<char>>)| figures(group_of(m)));
    let mut by: Vec<String> = Vec::new();
    let mut i: usize = 0;
    while i < found.len()
        invariant
            ms == founds(found@),
            goal == ms.map_values(|m: (int, int, Option<Seq<char>>)| figures(group_of(m))),
            i <= found@.len(),
            by@.len() == i,
            forall|k: int| 0 <= k < i ==> (#[trigger] by@[k])@ == goal[k],
        decreases found@.len() - i,
    {
        assert(ms[i as int] == found@[i as int]@);
        by.push(in_figures(group_text(&found[i]).as_str()));
        i += 1;
    }
    assert(texts(by@) =~= goal);
    splice(text, found, &by)
}

/// Keeps the characters that a key is made of.
pub fn keep_key_chars(s: &str) -> (r: String)
    ensures
        r@ == key_chars(s@),
{
    let v = chars_of(s);
    let mut r: Vec<char> = Vec::new();
    let mut i: usize = 0;
    while i < v.len()
        invariant
            v@ == s@,
            i <= v@.len(),
            r@ == key_chars(s@.take(i as int)),
        decreases v@.len() - i,
    {
        let c: char = v[i];
        assert(s@.take(i + 1).drop_last() =~= s@.take(i as int));
        if ('a' <= c && c <= 'z') || ('0' <= c && c <= '9') {
            r.push(c);
        }
        i += 1;
    }
    assert(s@.take(i as int) =~= s@);
    string_of(&r)
}

/// The comparison key of a title. Every match of titles goes by it.
pub fn norm(s: &str) -> (r: String)
    ensures
        r@ == norm_of(s@),
{
    proof {
        reveal_strlit("&");
    }
    let a = replace(to_lowercase(s).as_str(), "&", " and ");
    let b = expand_abbreviations(a.as_str(), &find_pattern(Pattern::Abbreviation, a.as_str()));
    let c = put_in_figures(b.as_str(), &find_pattern(Pattern::Roman, b.as_str()));
    let d = splice_with(c.as_str(), &find_pattern(Pattern::Article, c.as_str()), " ");
    keep_key_chars(d.as_str())
}

/// A text before the first match of one of the library's patterns.
pub open spec fn before_pattern(s: Seq<char>, p: Pattern) -> Seq<char> {
    cut_before(s, matches_of(p, s))
}

pub fn cut_pattern(s: &str, p: Pattern) -> (r: String)
    ensures
        r@ == before_pattern(s@, p),
{
    cut_at_first(s, &find_pattern(p, s))
}

/// The text before the first match of an expression; all of it when there is
/// none.
pub fn split_before(s: &str, pattern: &str) -> (r: String)
    requires
        regex_compiles(pattern@),
    ensures
        r@ == cut_before(s@, regex_matches(pattern@, s@)),
{
    match compile(pattern) {
        Ok(rx) => cut_at_first(s, &find_all(&rx, s)),
        Err(_) => String::new(),
    }
}

/// The same, for an expression that may not be well formed: `None` then.
pub fn try_split_before(s: &str, pattern: &str) -> (r: Option<String>)
    ensures
        match r {
            Some(t) => regex_compiles(pattern@) && t@ == cut_before(
                s@,
                regex_matches(pattern@, s@),
            ),
            None => !regex_compiles(pattern@),
        },
{
    match compile(pattern) {
        Ok(_) => Some(split_before(s, pattern)),
        Err(_) => None,
    }
}

/// The key of a title without its subtitle.
pub open spec fn title_key_of(name: Seq<char>) -> Seq<char> {
    norm_of(before_pattern(name, Pattern::Subtitle))
}

/// The key of a title without what follows ":" or " - " in it.
pub fn title_key(name: &str) -> (r: String)
    ensures
        r@ == title_key_of(name@),
{
    norm(cut_pattern(name, Pattern::Subtitle).as_str())
}

/// The title of a game without its details in brackets, subtitle and version.
pub open spec fn game_title_of(t: Seq<char>) -> Seq<char> {
    let name = before_pattern(before_pattern(t, Pattern::Details), Pattern::Subtitle);
    norm_of(spliced_with(name, matches_of(Pattern::Version, name), Seq::empty()))
}

/// The key of a game's name alone.
pub fn game_title(t: &str) -> (r: String)
    ensures
        r@ == game_title_of(t@),
{
    let t = cut_pattern(t, Pattern::Details);
    let t = cut_pattern(t.as_str(), Pattern::Subtitle);
    let bare = splice_with(t.as_str(), &find_pattern(Pattern::Version, t.as_str()), "");
    proof {
        reveal_strlit("");
        assert(""@ =~= Seq::empty());
    }
    norm(bare.as_str())
}

/// The HTML entities of the archives' listings, decoded.
pub open spec fn unescaped(s: Seq<char>) -> Seq<char> {
    let s = replaced(s, "&amp;"@, "&"@);
    let s = replaced(s, "&lt;"@, "<"@);
    let s = replaced(s, "&gt;"@, ">"@);
    let s = replaced(s, "&quot;"@, "\""@);
    replaced(s, "&#39;"@, "'"@)
}

/// Decodes the HTML entities that occur in the archives' listings.
pub fn html_unescape(s: &str) -> (r: String)
    ensures
        r@ == unescaped(s@),
{
    proof {
        reveal_strlit("&amp;");
        reveal_strlit("&lt;");
        reveal_strlit("&gt;");
        reveal_strlit("&quot;");
        reveal_strlit("&#39;");
    }
    let s = replace(s, "&amp;", "&");
    let s = replace(s.as_str(), "&lt;", "<");
    let s = replace(s.as_str(), "&gt;", ">");
    let s = replace(s.as_str(), "&quot;", "\"");
    replace(s.as_str(), "&#39;", "'")
}

// ---- laws ------------------------------------------------------------------------

proof fn lemma_key_chars(s: Seq<char>)
    ensures
        forall|i: int| 0 <= i < key_chars(s).len() ==> is_key_char(#[trigger] key_chars(s)[i]),
    decreases s.len(),
{
    if s.len() > 0 {
        let init = key_chars(s.drop_last());
        lemma_key_chars(s.drop_last());
        assert forall|i: int| 0 <= i < key_chars(s).len() implies is_key_char(
            #[trigger] key_chars(s)[i],
        ) by {
            if i < init.len() {
                assert(key_chars(s)[i] == init[i]);
            }
        }
    }
}

/// A key holds only small letters and figures.
pub proof fn law_norm_is_plain(title: Seq<char>)
    ensures
        forall|i: int| 0 <= i < norm_of(title).len() ==> is_key_char(#[trigger] norm_of(title)[i]),
{
    let b = in_full(title);
    let c = romans_in_figures(b, matches_of(Pattern::Roman, b));
    lemma_key_chars(spliced_with(c, matches_of(Pattern::Article, c), " "@));
}

/// Case does not matter to a key.
pub proof fn law_norm_ignores_case(a: Seq<char>, b: Seq<char>)
    requires
        lowered(a) == lowered(b),
    ensures
        norm_of(a) == norm_of(b),
{
}

/// A title in ASCII capitals has the key of the title itself, and so has one in small
/// letters.
pub proof fn law_norm_ignores_ascii_case(title: Seq<char>)
    requires
        is_ascii_text(title),
    ensures
        norm_of(ascii_uppered(title)) == norm_of(title),
        norm_of(ascii_lowered(title)) == norm_of(title),
{
    law_lowering_undoes_capitals(title);
}

/// The roman numerals up to ten.
pub open spec fn is_roman(w: Seq<char>) -> bool {
    w == "i"@ || w == "ii"@ || w == "iii"@ || w == "iv"@ || w == "v"@ || w == "vi"@ || w == "vii"@
        || w == "viii"@ || w == "ix"@ || w == "x"@
}

/// Different numerals stay different: "II" is never taken for "III".
pub proof fn law_numerals_stay_distinct(a: Seq<char>, b: Seq<char>)
    requires
        is_roman(a),
        is_roman(b),
        a != b,
    ensures
        figures(a) != figures(b),
{
    reveal_strlit("i");
    reveal_strlit("ii");
    reveal_strlit("iii");
    reveal_strlit("iv");
    reveal_strlit("v");
    reveal_strlit("vi");
    reveal_strlit("vii");
    reveal_strlit("viii");
    reveal_strlit("ix");
    reveal_strlit("x");
    reveal_strlit("1");
    reveal_strlit("2");
    reveal_strlit("3");
    reveal_strlit("4");
    reveal_strlit("5");
    reveal_strlit("6");
    reveal_strlit("7");
    reveal_strlit("8");
    reveal_strlit("9");
    reveal_strlit("10");
    assert("1"@[0] == '1' && "2"@[0] == '2' && "3"@[0] == '3' && "4"@[0] == '4' && "5"@[0] == '5'
        && "6"@[0] == '6' && "7"@[0] == '7' && "8"@[0] == '8' && "9"@[0] == '9' && "10"@.len()
        == 2 && "1"@.len() == 1);
}

proof fn lemma_key_chars_sum(a: Seq<char>, b: Seq<char>)
    ensures
        key_chars(a + b) == key_chars(a) + key_chars(b),
    decreases b.len(),
{
    if b.len() == 0 {
        assert(a + b =~= a);
        assert(key_chars(a) + key_chars(b) =~= key_chars(a));
    } else {
        lemma_key_chars_sum(a, b.drop_last());
        assert((a + b).drop_last() =~= a + b.drop_last());
        assert(key_chars(a + b) =~= key_chars(a) + key_chars(b));
    }
}

proof fn lemma_all_key_chars(s: Seq<char>)
    requires
        forall|i: int| 0 <= i < s.len() ==> is_key_char(#[trigger] s[i]),
    ensures
        key_chars(s) == s,
    decreases s.len(),
{
    if s.len() > 0 {
        lemma_all_key_chars(s.drop_last());
        assert(is_key_char(s[s.len() - 1]));
        assert(key_chars(s) =~= s);
    }
}

proof fn lemma_figures_are_key_chars(w: Seq<char>)
    requires
        is_roman(w),
    ensures
        key_chars(figures(w)) == figures(w),
{
    reveal_strlit("1");
    reveal_strlit("2");
    reveal_strlit("3");
    reveal_strlit("4");
    reveal_strlit("5");
    reveal_strlit("6");
    reveal_strlit("7");
    reveal_strlit("8");
    reveal_strlit("9");
    reveal_strlit("10");
    lemma_all_key_chars(figures(w));
}

/// What is done to the front of a text does not depend on what stands behind it.
proof fn lemma_spliced_front(
    front: Seq<char>,
    tail: Seq<char>,
    ms: Seq<(int, int, Option<Seq<char>>)>,
    by: Seq<Seq<char>>,
    k: int,
)
    requires
        in_order(ms, front.len()),
        0 <= k <= ms.len(),
    ensures
        spliced_upto(front + tail, ms, by, k) == spliced_upto(front, ms, by, k),
    decreases k,
{
    if k > 0 {
        lemma_spliced_front(front, tail, ms, by, k - 1);
        let from = if k == 1 {
            0
        } else {
            ms[k - 2].1
        };
        assert(0 <= ms[k - 1].0 <= ms[k - 1].1 <= front.len());
        if k > 1 {
            assert(0 <= ms[k - 2].0 <= ms[k - 2].1 <= front.len());
            assert(ms[k - 2].1 <= ms[k - 1].0);
        }
        assert((front + tail).subrange(from, ms[k - 1].0) =~= front.subrange(from, ms[k - 1].0));
    }
}

proof fn lemma_tail_stays(
    front: Seq<char>,
    tail: Seq<char>,
    ms: Seq<(int, int, Option<Seq<char>>)>,
    by: Seq<Seq<char>>,
)
    requires
        in_order(ms, front.len()),
    ensures
        spliced(front + tail, ms, by) == spliced(front, ms, by) + tail,
{
    lemma_spliced_front(front, tail, ms, by, ms.len() as int);
    if ms.len() > 0 {
        assert(0 <= ms[ms.len() - 1].0 <= ms[ms.len() - 1].1 <= front.len());
        assert((front + tail).skip(ms.last().1) =~= front.skip(ms.last().1) + tail);
    }
    assert(spliced(front + tail, ms, by) =~= spliced(front, ms, by) + tail);
}

proof fn lemma_upto_of_push(
    text: Seq<char>,
    ms: Seq<(int, int, Option<Seq<char>>)>,
    by: Seq<Seq<char>>,
    m: (int, int, Option<Seq<char>>),
    x: Seq<char>,
    k: int,
)
    requires
        0 <= k <= ms.len(),
        by.len() == ms.len(),
    ensures
        spliced_upto(text, ms.push(m), by.push(x), k) == spliced_upto(text, ms, by, k),
    decreases k,
{
    if k > 0 {
        lemma_upto_of_push(text, ms, by, m, x, k - 1);
    }
}

proof fn lemma_tail_replaced(
    front: Seq<char>,
    w: Seq<char>,
    ms: Seq<(int, int, Option<Seq<char>>)>,
)
    requires
        in_order(ms, front.len()),
    ensures
        romans_in_figures(
            front + w,
            ms.push((front.len() as int, (front.len() + w.len()) as int, Some(w))),
        ) == romans_in_figures(front, ms) + figures(w),
{
    let n = front.len() as int;
    let m = (n, n + w.len(), Some(w));
    let all = ms.push(m);
    let f = |m: (int, int, Option<Seq<char>>)| figures(group_of(m));
    let by = ms.map_values(f);
    let x = figures(w);
    assert(all.map_values(f) =~= by.push(x));
    lemma_upto_of_push(front + w, ms, by, m, x, ms.len() as int);
    lemma_spliced_front(front, w, ms, by, ms.len() as int);
    let from = if ms.len() == 0 {
        0
    } else {
        ms.last().1
    };
    if ms.len() > 0 {
        assert(0 <= ms[ms.len() - 1].0 <= ms[ms.len() - 1].1 <= front.len());
        assert(all[all.len() - 2] == ms.last());
    }
    assert(all[all.len() - 1] == m);
    assert((front + w).subrange(from, n) =~= front.skip(from));
    assert((front + w).skip(n + w.len()) =~= Seq::empty());
    assert(front.skip(0) =~= front);
    assert(spliced(front + w, all, by.push(x)) =~= spliced(front, ms, by) + x);
}

/// Titles that differ in the numeral at their end alone have different keys. The numeral is
/// found as one, whatever else is found before it, and the articles are the same in both.
pub proof fn law_numbered_titles_differ(
    one: Seq<char>,
    other: Seq<char>,
    front: Seq<char>,
    a: Seq<char>,
    b: Seq<char>,
    romans: Seq<(int, int, Option<Seq<char>>)>,
    articles: Seq<(int, int, Option<Seq<char>>)>,
)
    requires
        is_roman(a),
        is_roman(b),
        a != b,
        in_full(one) == front + a,
        in_full(other) == front + b,
        in_order(romans, front.len()),
        matches_of(Pattern::Roman, front + a) == romans.push(
            (front.len() as int, (front.len() + a.len()) as int, Some(a)),
        ),
        matches_of(Pattern::Roman, front + b) == romans.push(
            (front.len() as int, (front.len() + b.len()) as int, Some(b)),
        ),
        in_order(articles, romans_in_figures(front, romans).len()),
        matches_of(Pattern::Article, romans_in_figures(front, romans) + figures(a)) == articles,
        matches_of(Pattern::Article, romans_in_figures(front, romans) + figures(b)) == articles,
    ensures
        norm_of(one) != norm_of(other),
{
    let start = romans_in_figures(front, romans);
    let to = Seq::new(articles.len(), |i: int| " "@);
    let rest = spliced(start, articles, to);
    lemma_tail_replaced(front, a, romans);
    lemma_tail_replaced(front, b, romans);
    lemma_tail_stays(start, figures(a), articles, to);
    lemma_tail_stays(start, figures(b), articles, to);
    lemma_key_chars_sum(rest, figures(a));
    lemma_key_chars_sum(rest, figures(b));
    lemma_figures_are_key_chars(a);
    lemma_figures_are_key_chars(b);
    law_numerals_stay_distinct(a, b);
    let k = key_chars(rest);
    assert(norm_of(one) == k + figures(a));
    assert(norm_of(other) == k + figures(b));
    assert((k + figures(a)).skip(k.len() as int) =~= figures(a));
    assert((k + figures(b)).skip(k.len() as int) =~= figures(b));
}

// ---- the steps to a key ----------------------------------------------------------------------------------------------

/// What a letter of a roman numeral counts.
pub open spec fn letter_value(c: char) -> int {
    if c == 'i' {
        1
    } else if c == 'v' {
        5
    } else {
        10
    }
}

/// What a roman numeral counts: its letters, but one before a greater is taken away.
pub open spec fn roman_value(w: Seq<char>) -> int
    decreases w.len(),
{
    if w.len() == 0 {
        0
    } else if w.len() > 1 && letter_value(w[0]) < letter_value(w[1]) {
        roman_value(w.skip(1)) - letter_value(w[0])
    } else {
        roman_value(w.skip(1)) + letter_value(w[0])
    }
}

/// A roman numeral up to ten is put in the figures of what it counts.
pub proof fn law_numerals_keep_their_value(w: Seq<char>)
    requires
        is_roman(w),
    ensures
        1 <= roman_value(w) <= 10,
        figures(w) == crate::text::decimal(roman_value(w) as nat),
{
    reveal_strlit("i");
    reveal_strlit("ii");
    reveal_strlit("iii");
    reveal_strlit("iv");
    reveal_strlit("v");
    reveal_strlit("vi");
    reveal_strlit("vii");
    reveal_strlit("viii");
    reveal_strlit("ix");
    reveal_strlit("x");
    reveal_strlit("1");
    reveal_strlit("2");
    reveal_strlit("3");
    reveal_strlit("4");
    reveal_strlit("5");
    reveal_strlit("6");
    reveal_strlit("7");
    reveal_strlit("8");
    reveal_strlit("9");
    reveal_strlit("10");
    reveal_with_fuel(roman_value, 6);
    assert("i"@ =~= seq!['i'] && "ii"@ =~= seq!['i', 'i'] && "iii"@ =~= seq!['i', 'i', 'i'] && "iv"@
        =~= seq!['i', 'v'] && "v"@ =~= seq!['v'] && "vi"@ =~= seq!['v', 'i'] && "vii"@ =~= seq![
        'v',
        'i',
        'i',
    ] && "viii"@ =~= seq!['v', 'i', 'i', 'i'] && "ix"@ =~= seq!['i', 'x'] && "x"@ =~= seq!['x']);
    assert(w.len() == 1 ==> w.skip(1) =~= Seq::empty());
    assert(w.len() == 2 ==> w.skip(1) =~= seq![w[1]] && w.skip(1).skip(1) =~= Seq::empty());
    assert(w.len() == 3 ==> w.skip(1) =~= seq![w[1], w[2]] && w.skip(1).skip(1) =~= seq![w[2]]
        && w.skip(1).skip(1).skip(1) =~= Seq::empty());
    assert(w.len() == 4 ==> w.skip(1) =~= seq![w[1], w[2], w[3]] && w.skip(1).skip(1) =~= seq![
        w[2],
        w[3],
    ] && w.skip(1).skip(1).skip(1) =~= seq![w[3]] && w.skip(1).skip(1).skip(1).skip(1)
        =~= Seq::empty());
    let n = roman_value(w) as nat;
    crate::text::lemma_decimal(1);
    assert(('0' as u32 + 1) as char == '1' && ('0' as u32 + 2) as char == '2' && ('0' as u32 + 3) as char
        == '3' && ('0' as u32 + 4) as char == '4' && ('0' as u32 + 5) as char == '5' && ('0' as u32 + 6) as char
        == '6' && ('0' as u32 + 7) as char == '7' && ('0' as u32 + 8) as char == '8' && ('0' as u32 + 9) as char
        == '9' && ('0' as u32 + 0) as char == '0');
    reveal_with_fuel(crate::text::decimal, 3);
    assert(figures(w) =~= crate::text::decimal(n));
}

/// The abbreviations that are sought in a title are those that have a word, and each becomes
/// that word.
pub proof fn law_abbreviations_are_written_out(w: Seq<char>)
    ensures
        crate::pattern::pattern_text(Pattern::Abbreviation) == r"\b("@ + crate::text::joined(
            seq!["jr"@, "bros"@, "intl"@, "vs"@, "n"@],
            "|"@,
        ) + r")\b\.?"@,
        expansion("jr"@) == "junior"@,
        expansion("bros"@) == "brothers"@,
        expansion("intl"@) == "international"@,
        expansion("vs"@) == "versus"@,
        expansion("n"@) == "and"@,
        !seq!["jr"@, "bros"@, "intl"@, "vs"@, "n"@].contains(w) ==> expansion(w) == w,
{
    reveal_strlit("jr");
    reveal_strlit("bros");
    reveal_strlit("intl");
    reveal_strlit("vs");
    reveal_strlit("n");
    reveal_strlit("|");
    reveal_strlit(r"\b(");
    reveal_strlit(r")\b\.?");
    reveal_strlit(r"\b(jr|bros|intl|vs|n)\b\.?");
    let ws = seq!["jr"@, "bros"@, "intl"@, "vs"@, "n"@];
    assert(ws[0] == "jr"@ && ws[1] == "bros"@ && ws[2] == "intl"@ && ws[3] == "vs"@ && ws[4] == "n"@);
    assert("jr"@.len() == 2 && "bros"@.len() == 4 && "intl"@.len() == 4 && "vs"@.len() == 2 && "n"@.len()
        == 1);
    assert("jr"@[0] == 'j' && "vs"@[0] == 'v' && "bros"@[0] == 'b' && "intl"@[0] == 'i');
    reveal_with_fuel(crate::text::joined, 6);
    assert(ws.drop_last() =~= seq!["jr"@, "bros"@, "intl"@, "vs"@]);
    assert(ws.drop_last().drop_last() =~= seq!["jr"@, "bros"@, "intl"@]);
    assert(ws.drop_last().drop_last().drop_last() =~= seq!["jr"@, "bros"@]);
    assert(ws.drop_last().drop_last().drop_last().drop_last() =~= seq!["jr"@]);
    assert(crate::pattern::pattern_text(Pattern::Abbreviation) =~= r"\b("@ + crate::text::joined(
        ws,
        "|"@,
    ) + r")\b\.?"@);
}

/// A title in which neither abbreviations, numerals nor articles are found has its own letters
/// and figures as its key, in small letters, with "and" for "&".
pub proof fn law_plain_titles(title: Seq<char>)
    requires
        ({
            let a = replaced(lowered(title), "&"@, " and "@);
            &&& matches_of(Pattern::Abbreviation, a).len() == 0
            &&& matches_of(Pattern::Roman, a).len() == 0
            &&& matches_of(Pattern::Article, a).len() == 0
        }),
    ensures
        norm_of(title) == key_chars(replaced(lowered(title), "&"@, " and "@)),
        !crate::text::has_part(lowered(title), "&"@) ==> norm_of(title) == key_chars(lowered(title)),
{
    let a = replaced(lowered(title), "&"@, " and "@);
    let none = Seq::<(int, int, Option<Seq<char>>)>::empty();
    assert(matches_of(Pattern::Abbreviation, a) =~= none);
    assert(matches_of(Pattern::Roman, a) =~= none);
    assert(matches_of(Pattern::Article, a) =~= none);
    let e = none.map_values(|m: (int, int, Option<Seq<char>>)| expansion(group_of(m)));
    let f = none.map_values(|m: (int, int, Option<Seq<char>>)| figures(group_of(m)));
    let g = Seq::new(0, |i: int| " "@);
    crate::pattern::law_no_match_no_change(a, e);
    crate::pattern::law_no_match_no_change(a, f);
    crate::pattern::law_no_match_no_change(a, Seq::new(none.len(), |i: int| " "@));
    if !crate::text::has_part(lowered(title), "&"@) {
        crate::text::law_nothing_to_replace(lowered(title), "&"@, " and "@);
    }
}

/// An article in front of a title leaves no trace in its key.
pub proof fn law_articles_are_dropped(title: Seq<char>, article: Seq<char>, rest: Seq<char>)
    requires
        in_full(title) == article + rest,
        matches_of(Pattern::Roman, article + rest).len() == 0,
        matches_of(Pattern::Article, article + rest) == seq![
            (0int, article.len() as int, Some(article)),
        ],
    ensures
        norm_of(title) == key_chars(rest),
        crate::pattern::pattern_text(Pattern::Article) == r"\b("@ + "the"@ + "|"@ + "a"@ + r")\b"@,
{
    let b = article + rest;
    let none = Seq::<(int, int, Option<Seq<char>>)>::empty();
    assert(matches_of(Pattern::Roman, b) =~= none);
    let f = none.map_values(|m: (int, int, Option<Seq<char>>)| figures(group_of(m)));
    crate::pattern::law_no_match_no_change(b, f);
    let ms = matches_of(Pattern::Article, b);
    let to = Seq::new(ms.len(), |i: int| " "@);
    assert(b.skip(ms.last().1) =~= rest);
    assert(b.subrange(0, 0) =~= Seq::empty());
    reveal_with_fuel(spliced_upto, 2);
    reveal_strlit(" ");
    assert(spliced(b, ms, to) =~= " "@ + rest);
    lemma_key_chars_sum(" "@, rest);
    assert(" "@.drop_last() =~= Seq::empty());
    reveal_with_fuel(key_chars, 2);
    assert(key_chars(" "@) =~= Seq::empty());
    assert(Seq::<char>::empty() + key_chars(rest) =~= key_chars(rest));
    reveal_strlit(r"\b(");
    reveal_strlit("the");
    reveal_strlit("|");
    reveal_strlit("a");
    reveal_strlit(r")\b");
    reveal_strlit(r"\b(the|a)\b");
    assert(crate::pattern::pattern_text(Pattern::Article) =~= r"\b("@ + "the"@ + "|"@ + "a"@ + r")\b"@);
}

/// A key keeps the letters and figures of a text, in their order, and drops everything else.
pub proof fn law_keys_keep_letters_and_figures(s: Seq<char>)
    ensures
        key_chars(s) == s.filter(|c: char| ('a' <= c <= 'z') || ('0' <= c <= '9')),
    decreases s.len(),
{
    reveal(Seq::filter);
    if s.len() > 0 {
        law_keys_keep_letters_and_figures(s.drop_last());
    }
}

/// The key of a title goes up to its subtitle, and that of a game's title up to its details,
/// without a version.
pub proof fn law_keys_of_titles(name: Seq<char>)
    ensures
        matches_of(Pattern::Subtitle, name).len() == 0 ==> title_key_of(name) == norm_of(name),
        matches_of(Pattern::Subtitle, name).len() > 0 ==> title_key_of(name) == norm_of(
            name.take(matches_of(Pattern::Subtitle, name)[0].0),
        ),
        matches_of(Pattern::Details, name).len() == 0 && matches_of(Pattern::Subtitle, name).len() == 0
            && matches_of(Pattern::Version, name).len() == 0 ==> game_title_of(name) == norm_of(name),
        matches_of(Pattern::Details, name).len() > 0 ==> game_title_of(name) == ({
            let t = before_pattern(
                name.take(matches_of(Pattern::Details, name)[0].0),
                Pattern::Subtitle,
            );
            norm_of(spliced_with(t, matches_of(Pattern::Version, t), Seq::empty()))
        }),
{
    if matches_of(Pattern::Version, name).len() == 0 {
        let none = Seq::<(int, int, Option<Seq<char>>)>::empty();
        assert(matches_of(Pattern::Version, name) =~= none);
        crate::pattern::law_no_match_no_change(
            name,
            Seq::new(none.len(), |i: int| Seq::<char>::empty()),
        );
    }
}

/// A text without entities stays as it is.
pub proof fn law_texts_without_entities(s: Seq<char>)
    requires
        forall|i: int| 0 <= i < s.len() ==> #[trigger] s[i] != '&',
    ensures
        unescaped(s) == s,
{
    reveal_strlit("&amp;");
    reveal_strlit("&lt;");
    reveal_strlit("&gt;");
    reveal_strlit("&quot;");
    reveal_strlit("&#39;");
    lemma_no_ampersand(s, "&amp;"@);
    lemma_no_ampersand(s, "&lt;"@);
    lemma_no_ampersand(s, "&gt;"@);
    lemma_no_ampersand(s, "&quot;"@);
    lemma_no_ampersand(s, "&#39;"@);
    crate::text::law_nothing_to_replace(s, "&amp;"@, "&"@);
    crate::text::law_nothing_to_replace(s, "&lt;"@, "<"@);
    crate::text::law_nothing_to_replace(s, "&gt;"@, ">"@);
    crate::text::law_nothing_to_replace(s, "&quot;"@, "\""@);
    crate::text::law_nothing_to_replace(s, "&#39;"@, "'"@);
}

proof fn lemma_no_ampersand(s: Seq<char>, part: Seq<char>)
    requires
        forall|i: int| 0 <= i < s.len() ==> #[trigger] s[i] != '&',
        part.len() > 0,
        part[0] == '&',
    ensures
        !crate::text::has_part(s, part),
{
    assert forall|i: int| !crate::text::occurs_at(s, part, i) by {
        if crate::text::occurs_at(s, part, i) {
            assert(s.subrange(i, i + part.len())[0] == s[i]);
        }
    }
}

/// Each entity stands for its character, once.
pub proof fn law_entities(a: Seq<char>, b: Seq<char>)
    requires
        forall|i: int| 0 <= i < a.len() ==> #[trigger] a[i] != '&',
        forall|i: int| 0 <= i < b.len() ==> #[trigger] b[i] != '&',
    ensures
        unescaped(a + "&lt;"@ + b) == a + "<"@ + b,
        unescaped(a + "&gt;"@ + b) == a + ">"@ + b,
        unescaped(a + "&quot;"@ + b) == a + "\""@ + b,
        unescaped(a + "&#39;"@ + b) == a + "'"@ + b,
{
    reveal_strlit("&amp;");
    reveal_strlit("&lt;");
    reveal_strlit("&gt;");
    reveal_strlit("&quot;");
    reveal_strlit("&#39;");
    reveal_strlit("&");
    reveal_strlit("<");
    reveal_strlit(">");
    reveal_strlit("\"");
    reveal_strlit("'");
    lemma_one_entity(a, "&lt;"@, b);
    lemma_one_entity(a, "&gt;"@, b);
    lemma_one_entity(a, "&quot;"@, b);
    lemma_one_entity(a, "&#39;"@, b);
    assert("&lt;"@[1] == 'l' && "&gt;"@[1] == 'g' && "&quot;"@[1] == 'q' && "&#39;"@[1] == '#' && "&amp;"@[1]
        == 'a');
    lemma_other_entity(a, "&lt;"@, b, "&amp;"@, "&"@);
    lemma_the_entity(a, "&lt;"@, b, "<"@);
    lemma_texts_without_entities(a, "<"@, b);
    lemma_other_entity(a, "&gt;"@, b, "&amp;"@, "&"@);
    lemma_other_entity(a, "&gt;"@, b, "&lt;"@, "<"@);
    lemma_the_entity(a, "&gt;"@, b, ">"@);
    lemma_texts_without_entities(a, ">"@, b);
    lemma_other_entity(a, "&quot;"@, b, "&amp;"@, "&"@);
    lemma_other_entity(a, "&quot;"@, b, "&lt;"@, "<"@);
    lemma_other_entity(a, "&quot;"@, b, "&gt;"@, ">"@);
    lemma_the_entity(a, "&quot;"@, b, "\""@);
    lemma_texts_without_entities(a, "\""@, b);
    lemma_other_entity(a, "&#39;"@, b, "&amp;"@, "&"@);
    lemma_other_entity(a, "&#39;"@, b, "&lt;"@, "<"@);
    lemma_other_entity(a, "&#39;"@, b, "&gt;"@, ">"@);
    lemma_other_entity(a, "&#39;"@, b, "&quot;"@, "\""@);
    lemma_the_entity(a, "&#39;"@, b, "'"@);
}

proof fn lemma_one_entity(a: Seq<char>, e: Seq<char>, b: Seq<char>)
    requires
        forall|i: int| 0 <= i < a.len() ==> #[trigger] a[i] != '&',
        forall|i: int| 0 <= i < b.len() ==> #[trigger] b[i] != '&',
        e.len() > 1,
        e[0] == '&',
        forall|i: int| 1 <= i < e.len() ==> #[trigger] e[i] != '&',
    ensures
        forall|i: int|
            0 <= i < (a + e + b).len() && i != a.len() ==> #[trigger] (a + e + b)[i] != '&',
{
    let s = a + e + b;
    assert forall|i: int| 0 <= i < s.len() && i != a.len() implies #[trigger] s[i] != '&' by {
        if i < a.len() {
            assert(s[i] == a[i]);
        } else if i < a.len() + e.len() {
            assert(s[i] == e[i - a.len()]);
        } else {
            assert(s[i] == b[i - a.len() - e.len()]);
        }
    }
}

proof fn lemma_other_entity(a: Seq<char>, e: Seq<char>, b: Seq<char>, other: Seq<char>, to: Seq<char>)
    requires
        forall|i: int|
            0 <= i < (a + e + b).len() && i != a.len() ==> #[trigger] (a + e + b)[i] != '&',
        e.len() > 1,
        other.len() > 1,
        other[0] == '&',
        e[1] != other[1],
    ensures
        replaced(a + e + b, other, to) == a + e + b,
{
    let s = a + e + b;
    assert forall|i: int| !crate::text::occurs_at(s, other, i) by {
        if crate::text::occurs_at(s, other, i) {
            let t = s.subrange(i, i + other.len());
            assert(t[0] == s[i] && t[1] == s[i + 1]);
            assert(i == a.len());
            assert(s[i + 1] == e[1]);
        }
    }
    crate::text::law_nothing_to_replace(s, other, to);
}

proof fn lemma_the_entity(a: Seq<char>, e: Seq<char>, b: Seq<char>, to: Seq<char>)
    requires
        forall|i: int|
            0 <= i < (a + e + b).len() && i != a.len() ==> #[trigger] (a + e + b)[i] != '&',
        forall|i: int| 0 <= i < b.len() ==> #[trigger] b[i] != '&',
        e.len() > 1,
        e[0] == '&',
    ensures
        replaced(a + e + b, e, to) == a + to + b,
{
    let s = a + e + b;
    assert forall|k: int| 0 <= k < a.len() implies !#[trigger] crate::text::occurs_at(s, e, k) by {
        if crate::text::occurs_at(s, e, k) {
            assert(s.subrange(k, k + e.len())[0] == s[k]);
        }
    }
    crate::text::law_replacing(a, e, b, to);
    lemma_no_ampersand(b, e);
    crate::text::law_nothing_to_replace(b, e, to);
}

proof fn lemma_texts_without_entities(a: Seq<char>, c: Seq<char>, b: Seq<char>)
    requires
        forall|i: int| 0 <= i < a.len() ==> #[trigger] a[i] != '&',
        forall|i: int| 0 <= i < b.len() ==> #[trigger] b[i] != '&',
        c.len() == 1,
        c[0] != '&',
    ensures
        replaced(a + c + b, "&lt;"@, "<"@) == a + c + b,
        replaced(a + c + b, "&gt;"@, ">"@) == a + c + b,
        replaced(a + c + b, "&quot;"@, "\""@) == a + c + b,
        replaced(a + c + b, "&#39;"@, "'"@) == a + c + b,
{
    let s = a + c + b;
    reveal_strlit("&lt;");
    reveal_strlit("&gt;");
    reveal_strlit("&quot;");
    reveal_strlit("&#39;");
    assert forall|i: int| 0 <= i < s.len() implies #[trigger] s[i] != '&' by {
        if i < a.len() {
            assert(s[i] == a[i]);
        } else if i > a.len() {
            assert(s[i] == b[i - a.len() - 1]);
        }
    }
    lemma_no_ampersand(s, "&lt;"@);
    lemma_no_ampersand(s, "&gt;"@);
    lemma_no_ampersand(s, "&quot;"@);
    lemma_no_ampersand(s, "&#39;"@);
    crate::text::law_nothing_to_replace(s, "&lt;"@, "<"@);
    crate::text::law_nothing_to_replace(s, "&gt;"@, ">"@);
    crate::text::law_nothing_to_replace(s, "&quot;"@, "\""@);
    crate::text::law_nothing_to_replace(s, "&#39;"@, "'"@);
}

} // verus!
