//! Choosing from a list: what a picker program is given, what its answer chooses, and when
//! there is nothing to choose.

use crate::text::{
    append, decimal, decimal_text, join, joined, lines, lines_of, number_of, parse_u64, same,
    split, split_all, texts, trim, trimmed,
};
use vstd::prelude::*;

verus! {

// ---- one of many ---------------------------------------------------------------------------------

/// The lines that a picker is given: each title with its place behind a tab.
pub open spec fn numbered(titles: Seq<Seq<char>>) -> Seq<Seq<char>> {
    Seq::new(titles.len(), |i: int| titles[i] + "\t"@ + decimal(i as nat))
}

pub fn numbered_lines(titles: &Vec<String>) -> (r: String)
    ensures
        r@ == joined(numbered(texts(titles@)), "\n"@),
{
    let ghost goal = numbered(texts(titles@));
    let mut v: Vec<String> = Vec::new();
    let mut i: usize = 0;
    while i < titles.len()
        invariant
            goal == numbered(texts(titles@)),
            i <= titles@.len(),
            v@.len() == i,
            forall|k: int| 0 <= k < i ==> (#[trigger] v@[k])@ == goal[k],
        decreases titles@.len() - i,
    {
        let a = append(titles[i].as_str(), "\t");
        v.push(append(a.as_str(), decimal_text(i as u64).as_str()));
        i += 1;
    }
    assert(texts(v@) =~= goal);
    join(&v, "\n")
}

/// What the answer of a picker chooses.
#[derive(Clone, Copy, PartialEq, Eq, Structural, Debug)]
pub enum Choice {
    /// It was left without choosing.
    Nothing,
    /// The answer cannot be made out.
    Unclear,
    /// This place of the list.
    At(usize),
}

/// The choice that an answer is: the number behind its last tab.
pub open spec fn choice_of(answer: Seq<char>, n: int) -> Choice {
    let s = trimmed(answer);
    if s.len() == 0 {
        Choice::Nothing
    } else {
        let last = split_all(s, '\t').last();
        match number_of(last) {
            Some(k) if k < n && last[0] != '-' => Choice::At(k as usize),
            _ => Choice::Unclear,
        }
    }
}

proof fn lemma_split_some(s: Seq<char>, c: char)
    ensures
        split_all(s, c).len() > 0,
{
}

pub fn choice(answer: &str, n: usize) -> (r: Choice)
    ensures
        r == choice_of(answer@, n as int),
{
    let s = trim(answer);
    if s.as_str().is_empty() {
        return Choice::Nothing;
    }
    let parts = split(s.as_str(), '\t');
    proof {
        lemma_split_some(s@, '\t');
        assert(texts(parts@).len() == parts@.len());
        assert(texts(parts@).last() == parts@[parts@.len() - 1]@);
    }
    match parse_u64(parts[parts.len() - 1].as_str()) {
        Some(k) => if k < n as u64 {
            Choice::At(k as usize)
        } else {
            Choice::Unclear
        },
        None => Choice::Unclear,
    }
}

// ---- several of many --------------------------------------------------------------------------------

/// The first `n` places whose text is a line of the answer.
pub open spec fn places_chosen(displays: Seq<Seq<char>>, answer: Seq<Seq<char>>, n: int) -> Seq<usize>
    decreases n,
{
    if n <= 0 {
        Seq::empty()
    } else if displays[n - 1].len() > 0 && answer.contains(displays[n - 1]) {
        places_chosen(displays, answer, n - 1).push((n - 1) as usize)
    } else {
        places_chosen(displays, answer, n - 1)
    }
}

/// The places of a list that the lines of an answer choose.
pub fn chosen_lines(displays: &Vec<String>, answer: &str) -> (r: Vec<usize>)
    ensures
        r@ == places_chosen(texts(displays@), lines_of(answer@), displays@.len() as int),
{
    let ls = lines(answer);
    let ghost all = texts(displays@);
    let mut r: Vec<usize> = Vec::new();
    let mut n: usize = 0;
    while n < displays.len()
        invariant
            all == texts(displays@),
            texts(ls@) == lines_of(answer@),
            n <= displays@.len(),
            r@ == places_chosen(all, lines_of(answer@), n as int),
        decreases displays@.len() - n,
    {
        let d = displays[n].as_str();
        assert(all[n as int] == d@);
        let mut found = false;
        let mut k: usize = 0;
        while k < ls.len() && !found
            invariant
                texts(ls@) == lines_of(answer@),
                k <= ls@.len(),
                found ==> texts(ls@).contains(d@),
                !found ==> forall|m: int| 0 <= m < k ==> texts(ls@)[m] != d@,
            decreases ls@.len() - k,
        {
            assert(texts(ls@)[k as int] == ls@[k as int]@);
            if same(ls[k].as_str(), d) {
                found = true;
            }
            k += 1;
        }
        assert(texts(ls@).len() == ls@.len());
        if !d.is_empty() && found {
            r.push(n);
        }
        n += 1;
    }
    r
}

// ---- details ------------------------------------------------------------------------------------------

/// Which entry is shown: the first of those that have the title, when there is one of them
/// or nobody to ask; else the only match, and none of several.
#[derive(Debug)]
pub enum Shown {
    /// The first of the exact matches.
    FirstExact,
    /// The only match.
    Only,
    /// None: there are several.
    Several,
}

pub fn entry_shown(exact: usize, matches: usize, interactive: bool) -> (r: Shown)
    requires
        matches > 0,
    ensures
        match r {
            Shown::FirstExact => exact == 1 || (exact > 1 && !interactive),
            Shown::Only => !(exact == 1 || (exact > 1 && !interactive)) && matches == 1,
            Shown::Several => !(exact == 1 || (exact > 1 && !interactive)) && matches > 1,
        },
{
    if exact == 1 || (exact > 0 && !interactive) {
        Shown::FirstExact
    } else if matches == 1 {
        Shown::Only
    } else {
        Shown::Several
    }
}

/// What is said when there are several entries of a title.
pub fn several_note(n: usize, query: &str) -> (r: String)
    ensures
        r@ == "note: "@ + decimal(n as nat) + " GB64 entries titled like \""@ + query@
            + "\"; showing the top-rated (use --all to see them)."@,
{
    let mut s = append("note: ", decimal_text(n as u64).as_str());
    s.append(" GB64 entries titled like \"");
    s.append(query);
    s.append("\"; showing the top-rated (use --all to see them).");
    s
}

// ---- laws -----------------------------------------------------------------------------------------------

/// An answer that is one of the lines chooses the place of that line.
pub proof fn law_line_chooses_its_place(titles: Seq<Seq<char>>, i: int)
    requires
        0 <= i < titles.len(),
        titles.len() <= usize::MAX,
        trimmed(numbered(titles)[i]) == numbered(titles)[i],
        crate::table::fits_field(titles[i]),
    ensures
        choice_of(numbered(titles)[i], titles.len() as int) == Choice::At(i as usize),
{
    let line = numbered(titles)[i];
    let d = decimal(i as nat);
    crate::text::lemma_decimal(i as nat);
    crate::text::law_numbers_come_back(i);
    reveal_strlit("\t");
    let f = seq![titles[i], d];
    assert forall|k: int| 0 <= k < d.len() implies #[trigger] d[k] != '\t' && d[k] != '\n' by {
        assert(crate::text::is_digit(d[k]));
    }
    assert forall|k: int| 0 <= k < f.len() implies crate::table::fits_field(#[trigger] f[k]) by {}
    assert(f.drop_last() =~= seq![titles[i]]);
    assert(joined(f.drop_last(), "\t"@) == titles[i]);
    assert(crate::table::line_of(f) =~= line);
    crate::table::law_fields_come_back(f);
    assert(split_all(line, '\t').last() == d);
    assert(crate::text::is_digit(d[0]));
}

/// The answer to a list is the number behind the last tab of its line, where the list has
/// that place; an empty answer chooses nothing.
pub proof fn law_answers_choose(line: Seq<char>, k: nat, n: nat)
    requires
        k <= usize::MAX,
        n <= usize::MAX,
        trimmed(line + seq!['\t'] + decimal(k)) == line + seq!['\t'] + decimal(k),
        crate::table::fits_field(line),
    ensures
        k < n ==> choice_of(line + seq!['\t'] + decimal(k), n as int) == Choice::At(k as usize),
        k >= n ==> choice_of(line + seq!['\t'] + decimal(k), n as int) == Choice::Unclear,
        choice_of(Seq::empty(), n as int) == Choice::Nothing,
{
    reveal_strlit("\t");
    assert("\t"@ =~= seq!['\t']);
    crate::text::law_numbers_come_back(k as int);
    crate::text::lemma_decimal(k);
    let d = decimal(k);
    assert(crate::text::is_digit(d[0]));
    let f = seq![line, d];
    assert(f.drop_last() =~= seq![line]);
    assert(crate::table::line_of(seq![line]) == line);
    assert(crate::table::line_of(f) == line + seq!['\t'] + d);
    assert(crate::table::fits_field(d)) by {
        assert forall|i: int| 0 <= i < d.len() implies #[trigger] d[i] != '\t' && d[i] != '\n' by {
            assert(crate::text::is_digit(d[i]));
        }
    }
    crate::table::law_fields_come_back(f);
    let at = crate::text::law_trimming(Seq::empty());
    assert(trimmed(Seq::empty()) =~= Seq::empty());
}

proof fn lemma_places_chosen(displays: Seq<Seq<char>>, answer: Seq<Seq<char>>, n: int, k: int)
    requires
        0 <= n <= displays.len() <= usize::MAX,
        0 <= k <= usize::MAX,
    ensures
        places_chosen(displays, answer, n).contains(k as usize) <==> k < n && displays[k].len() > 0
            && answer.contains(displays[k]),
    decreases n,
{
    if n > 0 {
        lemma_places_chosen(displays, answer, n - 1, k);
        let init = places_chosen(displays, answer, n - 1);
        let all = places_chosen(displays, answer, n);
        if init.contains(k as usize) {
            assert(all[init.index_of(k as usize)] == k as usize);
        }
        if all.contains(k as usize) && !init.contains(k as usize) {
            let i = all.index_of(k as usize);
            if i < init.len() {
                assert(init[i] == k as usize);
            }
        }
        if displays[n - 1].len() > 0 && answer.contains(displays[n - 1]) {
            assert(all[all.len() - 1] == (n - 1) as usize);
        }
    }
}

/// Of several that may be chosen those are whose line is in the answer.
pub proof fn law_several_are_chosen(displays: Seq<Seq<char>>, answer: Seq<Seq<char>>, k: int)
    requires
        displays.len() <= usize::MAX,
        0 <= k < displays.len(),
    ensures
        places_chosen(displays, answer, displays.len() as int).contains(k as usize) <==> displays[k].len()
            > 0 && answer.contains(displays[k]),
{
    lemma_places_chosen(displays, answer, displays.len() as int, k);
}

} // verus!
