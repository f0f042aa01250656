//! Tables: texts of one record per line, with tabs between the fields. All that
//! the library keeps is kept in them.

use crate::text::{
    char_from, join, joined, lemma_char_from, lines, lines_of, split, split_all, texts,
    without_cr,
};
use vstd::prelude::*;

verus! {

/// The lines of a text, each with a newline behind it.
pub open spec fn text_of_lines(lines: Seq<Seq<char>>) -> Seq<char>
    decreases lines.len(),
{
    if lines.len() == 0 {
        Seq::empty()
    } else {
        text_of_lines(lines.drop_last()) + lines.last() + seq!['\n']
    }
}

/// A record as a line.
pub open spec fn line_of(fields: Seq<Seq<char>>) -> Seq<char> {
    joined(fields, "\t"@)
}

/// The fields of the records of a text.
pub open spec fn records_of(text: Seq<char>) -> Seq<Seq<Seq<char>>> {
    lines_of(text).map_values(|l: Seq<char>| split_all(l, '\t'))
}

/// The text of a list of records.
pub open spec fn table_text(records: Seq<Seq<Seq<char>>>) -> Seq<char> {
    text_of_lines(records.map_values(|r: Seq<Seq<char>>| line_of(r)))
}

/// The texts of the fields of records.
pub open spec fn fields_view(v: Seq<Vec<String>>) -> Seq<Seq<Seq<char>>> {
    v.map_values(|r: Vec<String>| texts(r@))
}

/// Reads the records of a text.
pub fn records(text: &str) -> (r: Vec<Vec<String>>)
    ensures
        fields_view(r@) == records_of(text@),
{
    let ls = lines(text);
    let mut r: Vec<Vec<String>> = Vec::new();
    let mut i: usize = 0;
    while i < ls.len()
        invariant
            texts(ls@) == lines_of(text@),
            i <= ls@.len(),
            r@.len() == i,
            forall|k: int| 0 <= k < i ==> texts((#[trigger] r@[k])@) == records_of(text@)[k],
        decreases ls@.len() - i,
    {
        assert(texts(ls@)[i as int] == ls@[i as int]@);
        r.push(split(ls[i].as_str(), '\t'));
        i += 1;
    }
    assert(texts(ls@).len() == ls@.len());
    assert(fields_view(r@) =~= records_of(text@));
    r
}

/// Adds a record to a text.
pub fn push_record(text: &mut String, fields: &Vec<String>)
    ensures
        final(text)@ == old(text)@ + line_of(texts(fields@)) + seq!['\n'],
{
    let line = join(fields, "\t");
    let ghost was = text@;
    text.append(line.as_str());
    text.push('\n');
    assert(text@ =~= was + line_of(texts(fields@)) + seq!['\n']);
}

/// Writes records as a text.
pub fn write_records(records: &Vec<Vec<String>>) -> (r: String)
    ensures
        r@ == table_text(fields_view(records@)),
{
    let mut r = String::new();
    let mut i: usize = 0;
    let ghost all = fields_view(records@).map_values(|r: Seq<Seq<char>>| line_of(r));
    while i < records.len()
        invariant
            all == fields_view(records@).map_values(|r: Seq<Seq<char>>| line_of(r)),
            i <= records@.len(),
            r@ == text_of_lines(all.take(i as int)),
        decreases records@.len() - i,
    {
        push_record(&mut r, &records[i]);
        assert(all.take(i + 1).drop_last() =~= all.take(i as int));
        assert(all[i as int] == line_of(texts(records@[i as int]@)));
        i += 1;
    }
    assert(all.take(i as int) =~= all);
    r
}

// ---- what is written is read back --------------------------------------------------------

/// A field that a table can hold.
pub open spec fn fits_field(f: Seq<char>) -> bool {
    forall|i: int| 0 <= i < f.len() ==> #[trigger] f[i] != '\t' && f[i] != '\n'
}

/// A record that a table can hold: at least one field, none with a tab or a
/// newline in it, and no carriage return at the end of the line.
pub open spec fn fits_record(fields: Seq<Seq<char>>) -> bool {
    &&& fields.len() > 0
    &&& forall|i: int| 0 <= i < fields.len() ==> fits_field(#[trigger] fields[i])
    &&& !(line_of(fields).len() > 0 && line_of(fields).last() == '\r')
}

proof fn lemma_joined_front(parts: Seq<Seq<char>>, sep: Seq<char>)
    requires
        parts.len() >= 2,
    ensures
        joined(parts, sep) == parts[0] + sep + joined(parts.skip(1), sep),
    decreases parts.len(),
{
    if parts.len() == 2 {
        assert(parts.drop_last() =~= seq![parts[0]]);
        assert(parts.skip(1) =~= seq![parts[1]]);
        assert(joined(parts.drop_last(), sep) == parts[0]);
        assert(joined(parts.skip(1), sep) == parts[1]);
    } else {
        lemma_joined_front(parts.drop_last(), sep);
        assert(parts.drop_last().skip(1) =~= parts.skip(1).drop_last());
        assert(joined(parts, sep) =~= parts[0] + sep + joined(parts.skip(1), sep));
    }
}

pub proof fn lemma_char_from_at(s: Seq<char>, c: char, from: int, at: int)
    requires
        0 <= from <= at <= s.len(),
        forall|i: int| from <= i < at ==> s[i] != c,
        at < s.len() ==> s[at] == c,
    ensures
        char_from(s, c, from) == at,
    decreases at - from,
{
    if from < at {
        lemma_char_from_at(s, c, from + 1, at);
    }
}

/// The fields of a line come back from it.
pub proof fn law_fields_come_back(fields: Seq<Seq<char>>)
    requires
        fields.len() > 0,
        forall|i: int| 0 <= i < fields.len() ==> fits_field(#[trigger] fields[i]),
    ensures
        split_all(line_of(fields), '\t') == fields,
    decreases fields.len(),
{
    reveal_strlit("\t");
    assert("\t"@ =~= seq!['\t']);
    let s = line_of(fields);
    assert(fits_field(fields[0]));
    if fields.len() == 1 {
        lemma_char_from_at(s, '\t', 0, s.len() as int);
        assert(split_all(s, '\t') =~= fields);
    } else {
        lemma_joined_front(fields, "\t"@);
        let rest = line_of(fields.skip(1));
        let n = fields[0].len() as int;
        assert(s == fields[0] + "\t"@ + rest);
        assert forall|i: int| 0 <= i < n implies s[i] != '\t' by {
            assert(s[i] == fields[0][i]);
        }
        assert(s[n] == '\t');
        lemma_char_from_at(s, '\t', 0, n);
        assert(s.take(n) =~= fields[0]);
        assert(s.skip(n + 1) =~= rest);
        assert forall|i: int| 0 <= i < fields.skip(1).len() implies fits_field(
            #[trigger] fields.skip(1)[i],
        ) by {
            assert(fits_field(fields[i + 1]));
        }
        law_fields_come_back(fields.skip(1));
        assert(split_all(s, '\t') =~= fields);
    }
}

proof fn lemma_text_front(ls: Seq<Seq<char>>)
    requires
        ls.len() > 0,
    ensures
        text_of_lines(ls) == ls[0] + seq!['\n'] + text_of_lines(ls.skip(1)),
    decreases ls.len(),
{
    if ls.len() == 1 {
        assert(ls.drop_last() =~= Seq::empty());
        assert(ls.skip(1) =~= Seq::empty());
        assert(text_of_lines(ls) =~= ls[0] + seq!['\n'] + text_of_lines(ls.skip(1)));
    } else {
        lemma_text_front(ls.drop_last());
        assert(ls.drop_last().skip(1) =~= ls.skip(1).drop_last());
        assert(text_of_lines(ls) =~= ls[0] + seq!['\n'] + text_of_lines(ls.skip(1)));
    }
}

/// A line that a text can hold.
pub open spec fn fits_line(l: Seq<char>) -> bool {
    &&& forall|i: int| 0 <= i < l.len() ==> #[trigger] l[i] != '\n'
    &&& !(l.len() > 0 && l.last() == '\r')
}

/// The lines of a text come back from it.
pub proof fn law_lines_come_back(ls: Seq<Seq<char>>)
    requires
        forall|i: int| 0 <= i < ls.len() ==> fits_line(#[trigger] ls[i]),
    ensures
        lines_of(text_of_lines(ls)) == ls,
    decreases ls.len(),
{
    if ls.len() == 0 {
        assert(lines_of(text_of_lines(ls)) =~= ls);
    } else {
        lemma_text_front(ls);
        let s = text_of_lines(ls);
        let rest = text_of_lines(ls.skip(1));
        let n = ls[0].len() as int;
        assert(fits_line(ls[0]));
        assert forall|i: int| 0 <= i < n implies s[i] != '\n' by {
            assert(s[i] == ls[0][i]);
        }
        assert(s[n] == '\n');
        lemma_char_from_at(s, '\n', 0, n);
        assert(s.take(n) =~= ls[0]);
        assert(s.skip(n + 1) =~= rest);
        assert forall|i: int| 0 <= i < ls.skip(1).len() implies fits_line(#[trigger] ls.skip(1)[i]) by {
            assert(fits_line(ls[i + 1]));
        }
        law_lines_come_back(ls.skip(1));
        assert(lines_of(s) =~= ls);
    }
}

proof fn lemma_joined_chars(parts: Seq<Seq<char>>, i: int)
    requires
        forall|k: int| 0 <= k < parts.len() ==> fits_field(#[trigger] parts[k]),
        0 <= i < line_of(parts).len(),
    ensures
        line_of(parts)[i] != '\n',
    decreases parts.len(),
{
    reveal_strlit("\t");
    if parts.len() == 1 {
        assert(fits_field(parts[0]));
    } else if parts.len() > 1 {
        let init = line_of(parts.drop_last());
        let s = line_of(parts);
        assert(s == init + "\t"@ + parts.last());
        assert(fits_field(parts[parts.len() - 1]));
        if i < init.len() {
            assert forall|k: int| 0 <= k < parts.drop_last().len() implies fits_field(
                #[trigger] parts.drop_last()[k],
            ) by {
                assert(fits_field(parts[k]));
            }
            lemma_joined_chars(parts.drop_last(), i);
            assert(s[i] == init[i]);
        } else if i == init.len() {
            assert(s[i] == "\t"@[0]);
        } else {
            assert(s[i] == parts.last()[i - init.len() - 1]);
        }
    }
}

/// The records of a table come back from its text.
pub proof fn law_records_come_back(records: Seq<Seq<Seq<char>>>)
    requires
        forall|i: int| 0 <= i < records.len() ==> fits_record(#[trigger] records[i]),
    ensures
        records_of(table_text(records)) == records,
{
    let ls = records.map_values(|r: Seq<Seq<char>>| line_of(r));
    assert forall|i: int| 0 <= i < ls.len() implies fits_line(#[trigger] ls[i]) by {
        assert(fits_record(records[i]));
        assert forall|k: int| 0 <= k < ls[i].len() implies #[trigger] ls[i][k] != '\n' by {
            lemma_joined_chars(records[i], k);
        }
    }
    law_lines_come_back(ls);
    assert forall|i: int| 0 <= i < records.len() implies split_all(ls[i], '\t')
        == #[trigger] records[i] by {
        assert(fits_record(records[i]));
        law_fields_come_back(records[i]);
    }
    assert(records_of(table_text(records)) =~= records);
}

/// A text whose last line is ended.
pub open spec fn whole_lines(text: Seq<char>) -> bool {
    text.len() == 0 || text.last() == '\n'
}

/// A line that is written behind a text is its last line, and the others stay.
pub proof fn law_lines_are_appended(text: Seq<char>, l: Seq<char>)
    requires
        whole_lines(text),
        fits_line(l),
    ensures
        lines_of(text + (l + seq!['\n'])) == lines_of(text).push(l),
    decreases text.len(),
{
    let added = l + seq!['\n'];
    let s = text + added;
    if text.len() == 0 {
        assert(s =~= added);
        lemma_char_from_at(s, '\n', 0, l.len() as int);
        assert(s.take(l.len() as int) =~= l);
        assert(s.skip(l.len() as int + 1) =~= Seq::empty());
        assert(lines_of(Seq::empty()) =~= Seq::empty());
        assert(without_cr(l) == l);
        assert(lines_of(s) =~= seq![l]);
        assert(lines_of(text).push(l) =~= seq![l]);
    } else {
        lemma_char_from(text, '\n', 0);
        let i = char_from(text, '\n', 0);
        assert(text[text.len() - 1] == '\n');
        assert(i < text.len());
        assert forall|k: int| 0 <= k < i implies s[k] != '\n' by {
            assert(s[k] == text[k]);
        }
        assert(s[i] == text[i]);
        lemma_char_from_at(s, '\n', 0, i);
        let rest = text.skip(i + 1);
        assert(s.take(i) =~= text.take(i));
        assert(s.skip(i + 1) =~= rest + added);
        law_lines_are_appended(rest, l);
        assert(lines_of(s) =~= lines_of(text).push(l));
    }
}

/// A record that is written behind a table is its last record, and the others stay.
pub proof fn law_records_are_appended(text: Seq<char>, fields: Seq<Seq<char>>)
    requires
        whole_lines(text),
        fits_record(fields),
    ensures
        records_of(text + (line_of(fields) + seq!['\n'])) == records_of(text).push(fields),
{
    let l = line_of(fields);
    assert forall|k: int| 0 <= k < l.len() implies #[trigger] l[k] != '\n' by {
        lemma_joined_chars(fields, k);
    }
    law_lines_are_appended(text, l);
    law_fields_come_back(fields);
    assert(records_of(text + (l + seq!['\n'])) =~= records_of(text).push(fields));
}

} // verus!
