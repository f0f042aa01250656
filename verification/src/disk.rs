//! Finding disks: what is asked of the archives, what is made of their answers,
//! and which of the disks they offer is taken.

use crate::json::{
    field, items, json_array, json_field, json_of_text, json_parse, json_str, json_tree,
    text_in, trees, Json,
};
use crate::order::{sort_texts, sorted_texts};
use crate::pattern::{
    find_pattern, first_group, founds, matched, matched_texts, matches_of, Found, Pattern,
};
use crate::releases::{
    different, disk_no, disk_number, first_group_text, offer, offers, Handle, Item, Offer,
};
use crate::text::{
    append, ends, ends_with, join, joined, lowered, number_of, parse_i64, same, texts,
    to_lowercase,
};
use crate::url::{form_text, pair_texts, urlencode};
use serde_json::Value;
use vstd::prelude::*;
use vstd::utf8::encode_utf8;

verus! {

// ---- is it a disk? --------------------------------------------------------------------------

/// The bytes that count as white space: tab, newline, form feed, carriage return
/// and space.
pub open spec fn is_blank(b: u8) -> bool {
    b == 0x09 || b == 0x0a || b == 0x0c || b == 0x0d || b == 0x20
}

/// The first byte that is not white space.
pub open spec fn first_solid(data: Seq<u8>, from: int) -> Option<u8>
    decreases data.len() - from,
{
    if from < 0 || from >= data.len() {
        None
    } else if is_blank(data[from]) {
        first_solid(data, from + 1)
    } else {
        Some(data[from])
    }
}

/// Data that may be a disk image: large enough, and no web page.
pub open spec fn may_be_disk(data: Seq<u8>) -> bool {
    data.len() >= 1024 && first_solid(data, 0) != Some(0x3cu8)
}

/// Whether downloaded data may be a disk image.
pub fn is_disk(blob: &Vec<u8>) -> (r: bool)
    ensures
        r == may_be_disk(blob@),
{
    if blob.len() < 1024 {
        return false;
    }
    let mut i: usize = 0;
    while i < blob.len()
        invariant
            i <= blob@.len(),
            blob@.len() >= 1024,
            first_solid(blob@, 0) == first_solid(blob@, i as int),
        decreases blob@.len() - i,
    {
        let b: u8 = blob[i];
        if !(b == 0x09 || b == 0x0a || b == 0x0c || b == 0x0d || b == 0x20) {
            return b != 0x3c;
        }
        i += 1;
    }
    true
}

// ---- how complete is it? ---------------------------------------------------------------------

/// The number in a text that fits an `i32`.
pub open spec fn small_number(s: Option<Seq<char>>) -> Option<i32> {
    match s {
        Some(t) => match number_of(t) {
            Some(n) => if i32::MIN <= n <= i32::MAX {
                Some(n as i32)
            } else {
                None
            },
            None => None,
        },
        None => None,
    }
}

/// The number of disks that a title says there are.
pub open spec fn of_number(title: Seq<char>) -> Option<i32> {
    small_number(first_group(matches_of(Pattern::OfCount, lowered(title))))
}

/// The greatest of the numbers that there are.
pub open spec fn greatest(ns: Seq<Option<i32>>) -> Option<i32>
    decreases ns.len(),
{
    if ns.len() == 0 {
        None
    } else {
        let init = greatest(ns.drop_last());
        match (init, ns.last()) {
            (Some(a), Some(b)) => Some(
                if a >= b {
                    a
                } else {
                    b
                },
            ),
            (Some(a), None) => Some(a),
            (None, b) => b,
        }
    }
}

/// How many disks titles say there are; one when none says it.
pub open spec fn wanted(titles: Seq<Seq<char>>) -> i32 {
    match greatest(titles.map_values(|t: Seq<char>| of_number(t))) {
        Some(n) => n,
        None => 1,
    }
}

/// How many different disks titles name.
pub open spec fn got(titles: Seq<Seq<char>>) -> nat {
    different(titles.map_values(|t: Seq<char>| disk_number(t)))
}

/// The number that the first group of the first match is.
pub fn group_count(found: &Vec<Found>) -> (r: Option<i32>)
    ensures
        r == small_number(first_group(founds(found@))),
{
    match first_group_text(found) {
        Some(g) => match parse_i64(g.as_str()) {
            Some(n) => if i32::MIN as i64 <= n && n <= i32::MAX as i64 {
                Some(n as i32)
            } else {
                None
            },
            None => None,
        },
        None => None,
    }
}

fn count_different(ds: &Vec<i32>) -> (n: usize)
    ensures
        n == different(ds@),
{
    let mut n: usize = 0;
    let mut i: usize = 0;
    while i < ds.len()
        invariant
            i <= ds@.len(),
            n <= i,
            n == different(ds@.take(i as int)),
        decreases ds@.len() - i,
    {
        let mut seen = false;
        let mut k: usize = 0;
        while k < i && !seen
            invariant
                k <= i < ds@.len(),
                seen == exists|m: int| 0 <= m < k && #[trigger] ds@[m] == ds@[i as int],
            decreases i - k,
        {
            if ds[k] == ds[i] {
                seen = true;
            }
            k += 1;
        }
        proof {
            assert(ds@.take(i + 1).drop_last() =~= ds@.take(i as int));
            if seen {
                let m = choose|m: int| 0 <= m < k && #[trigger] ds@[m] == ds@[i as int];
                assert(ds@.take(i as int)[m] == ds@[i as int]);
            } else {
                assert forall|m: int| 0 <= m < i implies ds@.take(i as int)[m] != ds@[i as int] by {
                    assert(ds@[m] != ds@[i as int]);
                }
            }
        }
        if !seen {
            n += 1;
        }
        i += 1;
    }
    assert(ds@.take(i as int) =~= ds@);
    n
}

/// How many different disks titles name, and how many they say there are.
pub fn title_coverage(titles: &Vec<String>) -> (r: (usize, i32))
    ensures
        r.0 == got(texts(titles@)),
        r.1 == wanted(texts(titles@)),
{
    let ghost ts = texts(titles@);
    let ghost counts = ts.map_values(|t: Seq<char>| of_number(t));
    let ghost numbers = ts.map_values(|t: Seq<char>| disk_number(t));
    let mut want: Option<i32> = None;
    let mut ds: Vec<i32> = Vec::new();
    let mut i: usize = 0;
    while i < titles.len()
        invariant
            ts == texts(titles@),
            counts == ts.map_values(|t: Seq<char>| of_number(t)),
            numbers == ts.map_values(|t: Seq<char>| disk_number(t)),
            i <= titles@.len(),
            want == greatest(counts.take(i as int)),
            ds@ == numbers.take(i as int),
        decreases titles@.len() - i,
    {
        let t = titles[i].as_str();
        proof {
            assert(ts[i as int] == t@);
            assert(counts.take(i + 1).drop_last() =~= counts.take(i as int));
            assert(numbers.take(i + 1) =~= numbers.take(i as int).push(numbers[i as int]));
        }
        let n = group_count(&find_pattern(Pattern::OfCount, to_lowercase(t).as_str()));
        want = match (want, n) {
            (Some(a), Some(b)) => Some(
                if a >= b {
                    a
                } else {
                    b
                },
            ),
            (Some(a), None) => Some(a),
            (None, b) => b,
        };
        ds.push(disk_no(t));
        i += 1;
    }
    proof {
        assert(counts.take(i as int) =~= counts);
        assert(numbers.take(i as int) =~= numbers);
    }
    (
        count_different(&ds),
        match want {
            Some(n) => n,
            None => 1,
        },
    )
}

pub open spec fn titles_of(os: Seq<Offer>) -> Seq<Seq<char>> {
    os.map_values(|o: Offer| o.title)
}

fn item_titles(items: &[Item]) -> (r: Vec<String>)
    ensures
        texts(r@) == titles_of(offers(items@)),
{
    let mut r: Vec<String> = Vec::new();
    let mut i: usize = 0;
    while i < items.len()
        invariant
            i <= items@.len(),
            r@.len() == i,
            forall|k: int| 0 <= k < i ==> (#[trigger] r@[k])@ == titles_of(offers(items@))[k],
        decreases items@.len() - i,
    {
        r.push(items[i].1.clone());
        i += 1;
    }
    assert(texts(r@) =~= titles_of(offers(items@)));
    r
}

/// How many different disks a release has, and how many it should have.
pub fn coverage(members: &[Item]) -> (r: (usize, i32))
    ensures
        r.0 == got(titles_of(offers(members@))),
        r.1 == wanted(titles_of(offers(members@))),
{
    title_coverage(&item_titles(members))
}

// ---- the words of a query -----------------------------------------------------------------------

/// Words too common to search for.
pub open spec fn is_stop_word(w: Seq<char>) -> bool {
    w == "the"@ || w == "a"@ || w == "of"@ || w == "and"@ || w == "or"@ || w == "to"@ || w == "in"@
        || w == "for"@
}

/// The words worth searching for.
pub open spec fn without_stop_words(ws: Seq<Seq<char>>) -> Seq<Seq<char>>
    decreases ws.len(),
{
    if ws.len() == 0 {
        Seq::empty()
    } else if is_stop_word(ws.last()) {
        without_stop_words(ws.drop_last())
    } else {
        without_stop_words(ws.drop_last()).push(ws.last())
    }
}

/// The words to search for: those worth it, else the whole query.
pub open spec fn search_words(lower: Seq<char>, ws: Seq<Seq<char>>) -> Seq<Seq<char>> {
    if without_stop_words(ws).len() == 0 {
        seq![lower]
    } else {
        without_stop_words(ws)
    }
}

/// The words of a query.
pub open spec fn query_words(query: Seq<char>) -> Seq<Seq<char>> {
    let lower = lowered(query);
    search_words(lower, matched(lower, matches_of(Pattern::LowerWord, lower)))
}

fn stop_word(w: &str) -> (r: bool)
    ensures
        r == is_stop_word(w@),
{
    same(w, "the") || same(w, "a") || same(w, "of") || same(w, "and") || same(w, "or") || same(
        w,
        "to",
    ) || same(w, "in") || same(w, "for")
}

/// The words to search for, of those that a query in lower case has.
pub fn words_worth(lower: &str, words: &Vec<String>) -> (r: Vec<String>)
    ensures
        texts(r@) == search_words(lower@, texts(words@)),
{
    let ghost ws = texts(words@);
    let mut r: Vec<String> = Vec::new();
    let mut i: usize = 0;
    assert(texts(r@) =~= without_stop_words(ws.take(0)));
    while i < words.len()
        invariant
            ws == texts(words@),
            i <= words@.len(),
            texts(r@) == without_stop_words(ws.take(i as int)),
        decreases words@.len() - i,
    {
        proof {
            assert(ws.take(i + 1).drop_last() =~= ws.take(i as int));
            assert(ws[i as int] == words@[i as int]@);
        }
        if !stop_word(words[i].as_str()) {
            let w = words[i].clone();
            assert(texts(r@.push(w)) =~= texts(r@).push(w@));
            r.push(w);
        }
        i += 1;
    }
    assert(ws.take(i as int) =~= ws);
    assert(texts(r@).len() == r@.len());
    if r.len() == 0 {
        r.push(lower.to_owned());
        assert(texts(r@) =~= seq![lower@]);
    }
    r
}

/// The words of a query.
pub fn words_of(query: &str) -> (r: Vec<String>)
    ensures
        texts(r@) == query_words(query@),
{
    let lower = to_lowercase(query);
    let found = find_pattern(Pattern::LowerWord, lower.as_str());
    words_worth(lower.as_str(), &matched_texts(lower.as_str(), &found))
}

// ---- the Internet Archive -------------------------------------------------------------------------

/// What the archive is asked for a query.
pub open spec fn ia_query(words: Seq<Seq<char>>) -> Seq<char> {
    "collection:(softwarelibrary_c64) AND title:("@ + joined(words, " OR "@) + ")"@
}

/// The address that a search for these words goes to.
pub open spec fn ia_search_address(words: Seq<Seq<char>>) -> Seq<char> {
    "https://archive.org/advancedsearch.php?"@ + form_text(
        seq![("q"@, ia_query(words)), ("rows"@, "80"@), ("output"@, "json"@)],
    ) + "&fl[]=identifier&fl[]=title"@
}

pub fn ia_search_url(query: &str) -> (r: String)
    ensures
        r@ == ia_search_address(query_words(query@)),
{
    let words = join(&words_of(query), " OR ");
    let q = append(
        append("collection:(softwarelibrary_c64) AND title:(", words.as_str()).as_str(),
        ")",
    );
    let mut pairs: Vec<(&str, &str)> = Vec::new();
    pairs.push(("q", q.as_str()));
    pairs.push(("rows", "80"));
    pairs.push(("output", "json"));
    assert(pair_texts(pairs@) =~= seq![("q"@, q@), ("rows"@, "80"@), ("output"@, "json"@)]);
    let form = urlencode(pairs.as_slice());
    let url = append("https://archive.org/advancedsearch.php?", form.as_str());
    append(url.as_str(), "&fl[]=identifier&fl[]=title")
}

/// A text, or another where there is none.
pub open spec fn text_or(t: Option<Seq<char>>, other: Seq<char>) -> Seq<char> {
    match t {
        Some(s) => s,
        None => other,
    }
}

/// The offer that a document of an answer is: known by its identifier, which also
/// stands in for a missing title.
pub open spec fn ia_offer(doc: Json) -> Offer {
    let ident = text_or(text_in(field(doc, "identifier"@)), Seq::empty());
    Offer { src: "ia"@, reff: ident, title: text_or(text_in(field(doc, "title"@)), ident) }
}

/// The offers in the archive's answer to a search.
pub open spec fn ia_offers(answer: Json) -> Seq<Offer> {
    items(field(field(answer, "response"@), "docs"@)).map_values(|d: Json| ia_offer(d))
}

fn text_field(v: &Value, key: &str) -> (r: Option<String>)
    ensures
        match r {
            Some(s) => text_in(field(json_tree(*v), key@)) == Some(s@),
            None => text_in(field(json_tree(*v), key@)) is None,
        },
{
    match json_str(json_field(v, key)) {
        Some(s) => Some(s.to_owned()),
        None => None,
    }
}

/// Reads the offers in an answer.
pub fn offers_in(answer: &Value) -> (r: Vec<Item>)
    ensures
        offers(r@) == ia_offers(json_tree(*answer)),
{
    let mut r: Vec<Item> = Vec::new();
    let docs = json_field(json_field(answer, "response"), "docs");
    match json_array(docs) {
        Some(list) => {
            let ghost ds = trees(list@);
            let mut i: usize = 0;
            while i < list.len()
                invariant
                    ds == trees(list@),
                    i <= list@.len(),
                    r@.len() == i,
                    forall|k: int| 0 <= k < i ==> offer(#[trigger] r@[k]) == ia_offer(ds[k]),
                decreases list@.len() - i,
            {
                assert(ds[i as int] == json_tree(list@[i as int]));
                let ident = match text_field(&list[i], "identifier") {
                    Some(s) => s,
                    None => String::new(),
                };
                let title = match text_field(&list[i], "title") {
                    Some(s) => s,
                    None => ident.clone(),
                };
                let it: Item = (Handle { src: "ia", reff: ident }, title);
                assert(offer(it) =~= ia_offer(ds[i as int]));
                r.push(it);
                i += 1;
            }
            assert(offers(r@) =~= ds.map_values(|d: Json| ia_offer(d)));
        },
        None => {
            assert(offers(r@) =~= ia_offers(json_tree(*answer)));
        },
    }
    r
}

/// Reads the offers in the text of an answer.
pub fn search_ia(answer: &str) -> (r: Result<Vec<Item>, serde_json::Error>)
    ensures
        match r {
            Ok(v) => json_of_text(answer@) is Some && offers(v@) == ia_offers(
                json_of_text(answer@)->0,
            ),
            Err(_) => json_of_text(answer@) is None,
        },
{
    match json_parse(answer) {
        Ok(v) => Ok(offers_in(&v)),
        Err(e) => Err(e),
    }
}

/// The names among the files of an item, in order.
pub open spec fn names_in(files: Seq<Json>) -> Seq<Seq<char>>
    decreases files.len(),
{
    if files.len() == 0 {
        Seq::empty()
    } else {
        let init = names_in(files.drop_last());
        match text_in(field(files.last(), "name"@)) {
            Some(n) => init.push(n),
            None => init,
        }
    }
}

/// The names of the files that an item's metadata lists; none when it is not JSON.
pub open spec fn ia_names(meta: Seq<char>) -> Seq<Seq<char>> {
    match json_of_text(meta) {
        Some(j) => names_in(items(field(j, "files"@))),
        None => Seq::empty(),
    }
}

fn names_of(files: &Vec<Value>) -> (r: Vec<String>)
    ensures
        texts(r@) == names_in(trees(files@)),
{
    let ghost fs = trees(files@);
    let mut r: Vec<String> = Vec::new();
    let mut i: usize = 0;
    assert(texts(r@) =~= names_in(fs.take(0)));
    while i < files.len()
        invariant
            fs == trees(files@),
            i <= files@.len(),
            texts(r@) == names_in(fs.take(i as int)),
        decreases files@.len() - i,
    {
        proof {
            assert(fs.take(i + 1).drop_last() =~= fs.take(i as int));
            assert(fs[i as int] == json_tree(files@[i as int]));
        }
        match text_field(&files[i], "name") {
            Some(n) => {
                assert(texts(r@.push(n)) =~= texts(r@).push(n@));
                r.push(n);
            },
            None => {},
        }
        i += 1;
    }
    assert(fs.take(i as int) =~= fs);
    r
}

/// Reads the names of the files that an item's metadata lists.
pub fn file_names(meta: &str) -> (r: Vec<String>)
    ensures
        texts(r@) == ia_names(meta@),
{
    let none: Vec<String> = Vec::new();
    assert(texts(none@) =~= Seq::empty());
    match json_parse(meta) {
        Ok(v) => match json_array(json_field(&v, "files")) {
            Some(files) => names_of(files),
            None => none,
        },
        Err(_) => none,
    }
}

// ---- which file -----------------------------------------------------------------------------

/// The extensions of images, the best first.
pub open spec fn extensions() -> Seq<Seq<char>> {
    seq![".d64"@, ".g64"@, ".d81"@, ".d71"@, ".t64"@, ".prg"@, ".crt"@]
}

/// The names with an extension, in any case.
pub open spec fn with_extension(names: Seq<Seq<char>>, ext: Seq<char>) -> Seq<Seq<char>>
    decreases names.len(),
{
    if names.len() == 0 {
        Seq::empty()
    } else if ends(lowered(names.last()), ext) {
        with_extension(names.drop_last(), ext).push(names.last())
    } else {
        with_extension(names.drop_last(), ext)
    }
}

/// The names with the best extension that any of them has.
pub open spec fn best_names(names: Seq<Seq<char>>, exts: Seq<Seq<char>>) -> Seq<Seq<char>>
    decreases exts.len(),
{
    if exts.len() == 0 {
        Seq::empty()
    } else if with_extension(names, exts[0]).len() > 0 {
        with_extension(names, exts[0])
    } else {
        best_names(names, exts.skip(1))
    }
}

fn extension_list() -> (r: Vec<String>)
    ensures
        texts(r@) == extensions(),
{
    let mut r: Vec<String> = Vec::new();
    r.push(".d64".to_string());
    r.push(".g64".to_string());
    r.push(".d81".to_string());
    r.push(".d71".to_string());
    r.push(".t64".to_string());
    r.push(".prg".to_string());
    r.push(".crt".to_string());
    assert(texts(r@) =~= extensions());
    r
}

fn filter_extension(names: &Vec<String>, ext: &str) -> (r: Vec<String>)
    ensures
        texts(r@) == with_extension(texts(names@), ext@),
{
    let ghost ns = texts(names@);
    let mut r: Vec<String> = Vec::new();
    let mut i: usize = 0;
    assert(texts(r@) =~= with_extension(ns.take(0), ext@));
    while i < names.len()
        invariant
            ns == texts(names@),
            i <= names@.len(),
            texts(r@) == with_extension(ns.take(i as int), ext@),
        decreases names@.len() - i,
    {
        proof {
            assert(ns.take(i + 1).drop_last() =~= ns.take(i as int));
            assert(ns[i as int] == names@[i as int]@);
        }
        if ends_with(to_lowercase(names[i].as_str()).as_str(), ext) {
            let n = names[i].clone();
            assert(texts(r@.push(n)) =~= texts(r@).push(n@));
            r.push(n);
        }
        i += 1;
    }
    assert(ns.take(i as int) =~= ns);
    r
}

fn names_with_best_extension(names: &Vec<String>, exts: &Vec<String>) -> (r: Vec<String>)
    ensures
        texts(r@) == best_names(texts(names@), texts(exts@)),
{
    let ghost all = texts(exts@);
    let ghost ns = texts(names@);
    let mut i: usize = 0;
    assert(all.skip(0) =~= all);
    while i < exts.len()
        invariant
            all == texts(exts@),
            ns == texts(names@),
            i <= exts@.len(),
            best_names(ns, all) == best_names(ns, all.skip(i as int)),
        decreases exts@.len() - i,
    {
        proof {
            assert(all[i as int] == exts@[i as int]@);
            assert(all.skip(i as int)[0] == all[i as int]);
            assert(all.skip(i as int).skip(1) =~= all.skip(i + 1));
        }
        let r = filter_extension(names, exts[i].as_str());
        assert(texts(r@).len() == r@.len());
        if r.len() > 0 {
            return r;
        }
        i += 1;
    }
    let none: Vec<String> = Vec::new();
    assert(texts(none@) =~= Seq::empty());
    assert(all.skip(i as int) =~= Seq::empty());
    none
}

/// The files of an item that are downloaded: all with the best extension, sorted.
pub fn files_to_get(names: &Vec<String>) -> (r: Vec<String>)
    ensures
        texts(r@) == sorted_texts(best_names(texts(names@), extensions())),
{
    sort_texts(&names_with_best_extension(names, &extension_list()))
}

/// The first of the shortest texts, in bytes.
pub open spec fn shortest(ns: Seq<Seq<char>>) -> Seq<char>
    decreases ns.len(),
{
    if ns.len() <= 1 {
        ns[0]
    } else {
        let init = shortest(ns.drop_last());
        if encode_utf8(ns.last()).len() < encode_utf8(init).len() {
            ns.last()
        } else {
            init
        }
    }
}

/// The member of an archive that is unpacked: of those with the best extension the
/// one with the shortest name.
pub fn member_to_get(names: &Vec<String>) -> (r: Option<String>)
    ensures
        ({
            let best = best_names(texts(names@), extensions());
            match r {
                Some(n) => best.len() > 0 && n@ == shortest(best),
                None => best.len() == 0,
            }
        }),
{
    shortest_of_best(names, &extension_list())
}

/// Of the names with the best of these extensions the shortest.
pub fn shortest_of_best(names: &Vec<String>, exts: &Vec<String>) -> (r: Option<String>)
    ensures
        ({
            let best = best_names(texts(names@), texts(exts@));
            match r {
                Some(n) => best.len() > 0 && n@ == shortest(best),
                None => best.len() == 0,
            }
        }),
{
    let best = names_with_best_extension(names, exts);
    let ghost all = texts(best@);
    assert(all.len() == best@.len());
    if best.len() == 0 {
        return None;
    }
    let mut at: usize = 0;
    let mut i: usize = 1;
    assert(all.take(1)[0] == all[0]);
    while i < best.len()
        invariant
            all == texts(best@),
            all.len() == best@.len(),
            1 <= i <= best@.len(),
            at < i,
            all[at as int] == shortest(all.take(i as int)),
        decreases best@.len() - i,
    {
        proof {
            assert(all.take(i + 1).drop_last() =~= all.take(i as int));
            assert(all[i as int] == best@[i as int]@);
            assert(all[at as int] == best@[at as int]@);
        }
        if best[i].as_str().as_bytes().len() < best[at].as_str().as_bytes().len() {
            at = i;
        }
        i += 1;
    }
    assert(all.take(i as int) =~= all);
    assert(all[at as int] == best@[at as int]@);
    Some(best[at].clone())
}

// ---- laws -----------------------------------------------------------------------------------------------------

proof fn lemma_first_solid(data: Seq<u8>, from: int, at: int)
    requires
        0 <= from <= at <= data.len(),
        forall|i: int|
            from <= i < at ==> #[trigger] data[i] == 9 || data[i] == 10 || data[i] == 12 || data[i]
                == 13 || data[i] == 32,
        at < data.len() ==> data[at] != 9 && data[at] != 10 && data[at] != 12 && data[at] != 13
            && data[at] != 32,
    ensures
        first_solid(data, from) == if at < data.len() {
            Some(data[at])
        } else {
            None
        },
    decreases at - from,
{
    if from < at {
        assert(data[from] == 9 || data[from] == 10 || data[from] == 12 || data[from] == 13
            || data[from] == 32);
        lemma_first_solid(data, from + 1, at);
    }
}

/// Less than a kilobyte is no disk, nor is a page of the web, which begins with "<" behind
/// white space; anything else may be one.
pub proof fn law_pages_are_no_disks(data: Seq<u8>, at: int)
    requires
        0 <= at <= data.len(),
        forall|i: int|
            0 <= i < at ==> #[trigger] data[i] == 9 || data[i] == 10 || data[i] == 12 || data[i] == 13
                || data[i] == 32,
        at < data.len() ==> data[at] != 9 && data[at] != 10 && data[at] != 12 && data[at] != 13
            && data[at] != 32,
    ensures
        may_be_disk(data) == (data.len() > 1023 && (at == data.len() || data[at] != '<' as u8)),
{
    lemma_first_solid(data, 0, at);
}

/// The number of disks that titles speak of is the greatest that any of them names, and one
/// where none does.
pub proof fn law_the_greatest_count_is_wanted(titles: Seq<Seq<char>>, i: int)
    requires
        0 <= i < titles.len(),
    ensures
        of_number(titles[i]) matches Some(n) ==> wanted(titles) >= n,
        exists|k: int|
            0 <= k < titles.len() && of_number(#[trigger] titles[k]) == Some(wanted(titles))
            || wanted(titles) == 1 && forall|k: int|
            0 <= k < titles.len() ==> of_number(#[trigger] titles[k]) is None,
{
    let ns = titles.map_values(|t: Seq<char>| of_number(t));
    lemma_greatest(ns);
    assert(ns[i] == of_number(titles[i]));
    match greatest(ns) {
        Some(n) => {
            let k = choose|k: int| 0 <= k < ns.len() && ns[k] == Some(n);
            assert(of_number(titles[k]) == Some(wanted(titles)));
        },
        None => {
            assert forall|k: int| 0 <= k < titles.len() implies of_number(
                #[trigger] titles[k],
            ) is None by {
                assert(ns[k] is None);
            }
            assert(0 <= i < titles.len());
            assert(of_number(titles[i]) is None);
        },
    }
}

proof fn lemma_greatest(ns: Seq<Option<i32>>)
    ensures
        match greatest(ns) {
            Some(n) => (exists|k: int| 0 <= k < ns.len() && #[trigger] ns[k] == Some(n)) && forall|
                k: int,
            |
                0 <= k < ns.len() ==> (#[trigger] ns[k] matches Some(m) ==> m <= n),
            None => forall|k: int| 0 <= k < ns.len() ==> #[trigger] ns[k] is None,
        },
    decreases ns.len(),
{
    if ns.len() > 0 {
        let init = ns.drop_last();
        lemma_greatest(init);
        assert(ns[ns.len() - 1] == ns.last());
        assert forall|k: int| 0 <= k < init.len() implies #[trigger] ns[k] == init[k] by {}
        if let Some(n) = greatest(init) {
            let k = choose|k: int| 0 <= k < init.len() && #[trigger] init[k] == Some(n);
            assert(ns[k] == Some(n));
        }
    }
}

/// As many disks are there as titles name different numbers.
pub proof fn law_disks_are_counted_once(titles: Seq<Seq<char>>)
    ensures
        got(titles) == titles.map_values(|t: Seq<char>| disk_number(t)).to_set().len(),
{
    crate::releases::law_different_numbers_are_counted(
        titles.map_values(|t: Seq<char>| disk_number(t)),
    );
}

/// A search leaves out the commonest words, unless there are no others: then it is for the
/// whole query.
pub proof fn law_common_words_are_not_sought(lower: Seq<char>, ws: Seq<Seq<char>>, w: Seq<char>)
    ensures
        ({
            let common = w == "the"@ || w == "a"@ || w == "of"@ || w == "and"@ || w == "or"@ || w
                == "to"@ || w == "in"@ || w == "for"@;
            &&& !common && ws.contains(w) ==> search_words(lower, ws).contains(w)
            &&& search_words(lower, ws) != seq![lower] ==> (search_words(lower, ws).contains(w) <==>
                !common && ws.contains(w))
            &&& search_words(lower, ws).len() > 0
        }),
{
    lemma_without_stop_words(ws, w);
    let kept = without_stop_words(ws);
    if kept.len() == 0 {
        assert(!kept.contains(w));
    }
}

proof fn lemma_without_stop_words(ws: Seq<Seq<char>>, w: Seq<char>)
    ensures
        without_stop_words(ws).contains(w) <==> ws.contains(w) && !(w == "the"@ || w == "a"@ || w
            == "of"@ || w == "and"@ || w == "or"@ || w == "to"@ || w == "in"@ || w == "for"@),
    decreases ws.len(),
{
    if ws.len() > 0 {
        let init = ws.drop_last();
        lemma_without_stop_words(init, w);
        let kept = without_stop_words(init);
        let all = without_stop_words(ws);
        assert(ws[ws.len() - 1] == ws.last());
        if init.contains(w) {
            let i = init.index_of(w);
            assert(ws[i] == w);
        }
        if ws.contains(w) && w != ws.last() {
            let i = ws.index_of(w);
            assert(init[i] == w);
        }
        if kept.contains(w) {
            let i = kept.index_of(w);
            assert(all[i] == w);
        }
        if all.contains(w) && !kept.contains(w) {
            let i = all.index_of(w);
            if i < kept.len() {
                assert(kept[i] == w);
            }
            assert(w == ws.last());
        }
        if !is_stop_word(ws.last()) {
            assert(all[all.len() - 1] == ws.last());
        }
    }
}

proof fn lemma_with_extension(names: Seq<Seq<char>>, ext: Seq<char>)
    ensures
        forall|n: Seq<char>| #[trigger]
            with_extension(names, ext).contains(n) <==> names.contains(n) && ends(lowered(n), ext),
    decreases names.len(),
{
    if names.len() > 0 {
        let init = names.drop_last();
        lemma_with_extension(init, ext);
        let kept = with_extension(init, ext);
        let all = with_extension(names, ext);
        assert forall|n: Seq<char>| #[trigger] all.contains(n) <==> names.contains(n) && ends(
            lowered(n),
            ext,
        ) by {
            assert(names[names.len() - 1] == names.last());
            if init.contains(n) {
                let i = init.index_of(n);
                assert(names[i] == n);
            }
            if names.contains(n) && n != names.last() {
                let i = names.index_of(n);
                assert(init[i] == n);
            }
            assert(kept.contains(n) <==> init.contains(n) && ends(lowered(n), ext));
            if kept.contains(n) {
                let i = kept.index_of(n);
                assert(all[i] == n);
            }
            if all.contains(n) && !kept.contains(n) {
                let i = all.index_of(n);
                if i < kept.len() {
                    assert(kept[i] == n);
                }
                assert(n == names.last());
            }
            if ends(lowered(names.last()), ext) {
                assert(all[all.len() - 1] == names.last());
            }
        }
    }
}

/// The names with the best extension: where any name has the extension at place `k` and none
/// has one before it, they are the names that have it.
pub proof fn lemma_best_names(names: Seq<Seq<char>>, exts: Seq<Seq<char>>, k: int)
    requires
        0 <= k < exts.len(),
        exists|n: Seq<char>| #[trigger] names.contains(n) && ends(lowered(n), exts[k]),
        forall|j: int, n: Seq<char>|
            0 <= j < k && #[trigger] names.contains(n) ==> !ends(lowered(n), #[trigger] exts[j]),
    ensures
        best_names(names, exts).len() > 0,
        forall|n: Seq<char>| #[trigger]
            best_names(names, exts).contains(n) <==> names.contains(n) && ends(lowered(n), exts[k]),
    decreases exts.len(),
{
    lemma_with_extension(names, exts[0]);
    if k == 0 {
        let n = choose|n: Seq<char>| #[trigger] names.contains(n) && ends(lowered(n), exts[k]);
        assert(with_extension(names, exts[0]).contains(n));
    } else {
        let kept = with_extension(names, exts[0]);
        if kept.len() > 0 {
            assert(kept.contains(kept[0]));
            assert(!ends(lowered(kept[0]), exts[0]));
        }
        assert forall|j: int, n: Seq<char>|
            0 <= j < k - 1 && #[trigger] names.contains(n) implies !ends(
            lowered(n),
            #[trigger] exts.skip(1)[j],
        ) by {
            assert(exts.skip(1)[j] == exts[j + 1]);
        }
        lemma_best_names(names, exts.skip(1), k - 1);
    }
}

/// A shortest text is one of them, and no other has fewer bytes.
pub proof fn law_the_shortest_is_short(ns: Seq<Seq<char>>, i: int)
    requires
        0 <= i < ns.len(),
    ensures
        ns.contains(shortest(ns)),
        encode_utf8(shortest(ns)).len() <= encode_utf8(ns[i]).len(),
    decreases ns.len(),
{
    if ns.len() > 1 {
        let init = ns.drop_last();
        law_the_shortest_is_short(init, if i < init.len() {
            i
        } else {
            0
        });
        let k = init.index_of(shortest(init));
        assert(ns[k] == shortest(init));
        assert(ns[ns.len() - 1] == ns.last());
    }
}

/// Some name has this ending, in any case.
pub open spec fn some_ends(names: Seq<Seq<char>>, e: Seq<char>) -> bool {
    exists|o: Seq<char>| #[trigger] names.contains(o) && ends(lowered(o), e)
}

/// All names have this ending, in any case.
pub open spec fn all_end(names: Seq<Seq<char>>, e: Seq<char>) -> bool {
    forall|o: Seq<char>| #[trigger] names.contains(o) ==> ends(lowered(o), e)
}

/// Among the files of an item the images of disks are the best: first those of a usual disk,
/// then with its grooves, of the larger drives, of a tape's files, then programs, and
/// cartridges last. What is taken has the best ending that any name has.
pub proof fn law_disk_images_are_the_best(names: Seq<Seq<char>>, n: Seq<char>)
    requires
        names.contains(n),
    ensures
        ends(lowered(n), ".d64"@) ==> best_names(names, extensions()).contains(n) && all_end(
            best_names(names, extensions()),
            ".d64"@,
        ),
        ends(lowered(n), ".g64"@) && !some_ends(names, ".d64"@) ==> best_names(names, extensions()).contains(n) && all_end(
            best_names(names, extensions()),
            ".g64"@,
        ),
        ends(lowered(n), ".d81"@) && !some_ends(names, ".d64"@) && !some_ends(names, ".g64"@) ==> best_names(names, extensions()).contains(n) && all_end(
            best_names(names, extensions()),
            ".d81"@,
        ),
        ends(lowered(n), ".d71"@) && !some_ends(names, ".d64"@) && !some_ends(names, ".g64"@) && !some_ends(names, ".d81"@) ==> best_names(names, extensions()).contains(n) && all_end(
            best_names(names, extensions()),
            ".d71"@,
        ),
        ends(lowered(n), ".t64"@) && !some_ends(names, ".d64"@) && !some_ends(names, ".g64"@) && !some_ends(names, ".d81"@) && !some_ends(names, ".d71"@) ==> best_names(names, extensions()).contains(n) && all_end(
            best_names(names, extensions()),
            ".t64"@,
        ),
        ends(lowered(n), ".prg"@) && !some_ends(names, ".d64"@) && !some_ends(names, ".g64"@) && !some_ends(names, ".d81"@) && !some_ends(names, ".d71"@) && !some_ends(names, ".t64"@) ==> best_names(names, extensions()).contains(n) && all_end(
            best_names(names, extensions()),
            ".prg"@,
        ),
        ends(lowered(n), ".crt"@) && !some_ends(names, ".d64"@) && !some_ends(names, ".g64"@) && !some_ends(names, ".d81"@) && !some_ends(names, ".d71"@) && !some_ends(names, ".t64"@) && !some_ends(names, ".prg"@) ==> best_names(names, extensions()).contains(n) && all_end(
            best_names(names, extensions()),
            ".crt"@,
        ),
{
    let exts = extensions();
    if ends(lowered(n), ".d64"@) {
        lemma_best_names(names, exts, 0);
    } else if ends(lowered(n), ".g64"@) && !some_ends(names, ".d64"@) {
        lemma_best_names(names, exts, 1);
    } else if ends(lowered(n), ".d81"@) && !some_ends(names, ".d64"@) && !some_ends(names, ".g64"@) {
        lemma_best_names(names, exts, 2);
    } else if ends(lowered(n), ".d71"@) && !some_ends(names, ".d64"@) && !some_ends(names, ".g64"@) && !some_ends(names, ".d81"@) {
        lemma_best_names(names, exts, 3);
    } else if ends(lowered(n), ".t64"@) && !some_ends(names, ".d64"@) && !some_ends(names, ".g64"@) && !some_ends(names, ".d81"@) && !some_ends(names, ".d71"@) {
        lemma_best_names(names, exts, 4);
    } else if ends(lowered(n), ".prg"@) && !some_ends(names, ".d64"@) && !some_ends(names, ".g64"@) && !some_ends(names, ".d81"@) && !some_ends(names, ".d71"@) && !some_ends(names, ".t64"@) {
        lemma_best_names(names, exts, 5);
    } else if ends(lowered(n), ".crt"@) && !some_ends(names, ".d64"@) && !some_ends(names, ".g64"@) && !some_ends(names, ".d81"@) && !some_ends(names, ".d71"@) && !some_ends(names, ".t64"@) && !some_ends(names, ".prg"@) {
        lemma_best_names(names, exts, 6);
    }
}

/// An answer of the archive lists its items by identifier and title; one without a title goes
/// by its identifier.
pub proof fn law_items_of_an_answer(doc: Json, answer: Json, i: int)
    ensures
        ({
            let o = ia_offer(doc);
            let ident = text_in(field(doc, "identifier"@));
            let title = text_in(field(doc, "title"@));
            &&& o.src == "ia"@
            &&& ident matches Some(t) ==> o.reff == t
            &&& ident is None ==> o.reff.len() == 0
            &&& title matches Some(t) ==> o.title == t
            &&& title is None ==> o.title == o.reff
        }),
        ({
            let docs = items(field(field(answer, "response"@), "docs"@));
            &&& ia_offers(answer).len() == docs.len()
            &&& 0 <= i < docs.len() ==> ia_offers(answer)[i] == ia_offer(docs[i])
        }),
{
}

/// The files of an item are those that its list names, in the list's order.
pub proof fn law_files_of_an_item(files: Seq<Json>, f: Json, meta: Seq<char>, j: Json)
    ensures
        text_in(field(f, "name"@)) matches Some(n) ==> names_in(files.push(f)) == names_in(files).push(n),
        text_in(field(f, "name"@)) is None ==> names_in(files.push(f)) == names_in(files),
        json_of_text(meta) == Some(j) ==> ia_names(meta) == names_in(items(field(j, "files"@))),
        json_of_text(meta) is None ==> ia_names(meta).len() == 0,
{
    assert(files.push(f).drop_last() =~= files);
}

/// The archive is asked for titles with any of the words, in its collection for the machine.
pub proof fn law_questions_to_the_archive(words: Seq<Seq<char>>, w: Seq<char>)
    ensures
        ia_query(seq![w]) == "collection:(softwarelibrary_c64)"@ + " AND "@ + "title:("@ + w + ")"@,
        words.len() > 0 ==> ia_query(words.push(w)) == ia_query(words).drop_last() + " OR "@ + w + ")"@,
{
    reveal_strlit("collection:(softwarelibrary_c64)");
    reveal_strlit(" AND ");
    reveal_strlit("title:(");
    reveal_strlit(")");
    reveal_strlit("collection:(softwarelibrary_c64) AND title:(");
    assert(joined(seq![w], " OR "@) == w);
    assert(ia_query(seq![w]) =~= "collection:(softwarelibrary_c64)"@ + " AND "@ + "title:("@ + w + ")"@);
    if words.len() > 0 {
        assert(words.push(w).drop_last() =~= words);
        assert(joined(words.push(w), " OR "@) == joined(words, " OR "@) + " OR "@ + w);
        assert(ia_query(words.push(w)) =~= ia_query(words).drop_last() + " OR "@ + w + ")"@);
    }
}

} // verus!
